use photogrid::geometry::gcd_usize;
use photogrid::{
    AspectRatio, Coord, Dimension, FromAspectRatio, Grid, GridContent, Neighbours,
    NormalizedAspectRatio, Orientation, ParseError, PhotoGrid, ResponsivePhotoGrid,
    RoundedAspectRatio, Rounding, Size,
};

fn cells_of<T>(c: &GridContent<T>) -> Vec<(usize, usize)> {
    let mut out = Vec::new();
    for y in c.origin.y..c.origin.y + c.size.height {
        for x in c.origin.x..c.origin.x + c.size.width {
            out.push((x, y));
        }
    }
    out
}

fn mixed_sizes() -> Vec<Dimension> {
    vec![
        Dimension { width: 2, height: 1 },
        Dimension { width: 1, height: 2 },
        Dimension { width: 3, height: 1 },
        Dimension { width: 1, height: 1 },
        Dimension { width: 2, height: 2 },
        Dimension { width: 1, height: 3 },
        Dimension { width: 4, height: 1 },
    ]
}

#[test]
fn each_item_placed_once_without_overlap() {
    let sizes = mixed_sizes();
    let ids: Vec<usize> = (0..sizes.len()).collect();
    let g = PhotoGrid::new_with_sizes(&ids, 4, &sizes);
    assert_eq!(g.grid.len(), sizes.len());
    let mut seen = vec![false; sizes.len()];
    let mut taken = std::collections::HashSet::new();
    for p in &g.grid {
        assert!(!seen[p.data]);
        seen[p.data] = true;
        assert_eq!(p.size, sizes[p.data]);
        for c in cells_of(p) {
            assert!(taken.insert(c));
        }
    }
    assert!(seen.iter().all(|s| *s));
}

#[test]
fn placements_stay_within_width() {
    let sizes = mixed_sizes();
    let ids: Vec<usize> = (0..sizes.len()).collect();
    for w in 4..7 {
        let g = PhotoGrid::new_with_sizes(&ids, w, &sizes);
        for p in &g.grid {
            assert!(p.origin.x + p.size.width <= w);
        }
    }
}

#[test]
fn packing_twice_gives_the_same_layout() {
    let sizes = mixed_sizes();
    let ids: Vec<usize> = (0..sizes.len()).collect();
    let a = PhotoGrid::new_with_sizes(&ids, 5, &sizes);
    let b = PhotoGrid::new_with_sizes(&ids, 5, &sizes);
    assert_eq!(a.width, b.width);
    assert_eq!(a.grid, b.grid);
}

#[test]
fn one_landscape_item_in_four_columns() {
    let g = PhotoGrid::new_with_sizes(&[7u32], 4, &[Dimension { width: 2, height: 1 }]);
    assert_eq!(g.grid.len(), 1);
    assert_eq!(g.grid[0].origin, Coord { x: 0, y: 0 });
    assert_eq!(g.grid[0].size, Dimension { width: 2, height: 1 });
    assert_eq!(*g.grid[0].content(), 7);
}

#[test]
fn growing_fills_row_ends_without_overlap() {
    let data = vec![
        NormalizedAspectRatio { orientation: Orientation::Landscape, long_edge: 2 },
        NormalizedAspectRatio { orientation: Orientation::Landscape, long_edge: 2 },
        NormalizedAspectRatio { orientation: Orientation::Portrait, long_edge: 2 },
        NormalizedAspectRatio { orientation: Orientation::Portrait, long_edge: 2 },
    ];
    let g = PhotoGrid::new_with_mapper(data.as_slice(), 4, |x| *x);
    let before: Vec<Dimension> = g.grid.iter().map(|p| p.size).collect();
    let grown = g.grow_non_intersecting();
    let after: Vec<Dimension> = grown.grid.iter().map(|p| p.size).collect();
    assert_eq!(
        after,
        vec![
            Dimension { width: 2, height: 1 },
            Dimension { width: 2, height: 1 },
            Dimension { width: 1, height: 2 },
            Dimension { width: 3, height: 2 },
        ]
    );
    for (b, a) in before.iter().zip(after.iter()) {
        assert!(a.width >= b.width);
        assert_eq!(a.height, b.height);
    }
    let mut taken = std::collections::HashSet::new();
    for p in &grown.grid {
        assert!(p.origin.x + p.size.width <= 4);
        for c in cells_of(p) {
            assert!(taken.insert(c));
        }
    }
}

#[test]
fn rounding_up_on_any_remainder() {
    let a = RoundedAspectRatio::<2>::from_aspect_ratio_with(
        &AspectRatio { width: 6048, height: 4024 },
        Rounding::Up,
    );
    assert_eq!(a.width(), 4);
    assert_eq!(a.height(), 2);
    let b = RoundedAspectRatio::<2>::from_aspect_ratio_with(
        &AspectRatio { width: 3600, height: 2401 },
        Rounding::Up,
    );
    assert_eq!(b.orientation(), Orientation::Landscape);
    assert_eq!(b.long_edge(), 3);
    let c = RoundedAspectRatio::<2>::from_aspect_ratio_with(
        &AspectRatio { width: 856, height: 1280 },
        Rounding::Up,
    );
    assert_eq!((c.width(), c.height()), (2, 3));
}

#[test]
fn normalized_ratio_rounds_up() {
    let a = NormalizedAspectRatio::from_aspect_ratio(&AspectRatio { width: 3, height: 2 });
    assert_eq!(a, NormalizedAspectRatio { orientation: Orientation::Landscape, long_edge: 2 });
    let b = NormalizedAspectRatio::from_aspect_ratio(&AspectRatio { width: 2, height: 2 });
    assert_eq!(b, NormalizedAspectRatio { orientation: Orientation::Landscape, long_edge: 1 });
    assert_eq!((b.width(), b.height()), (1, 1));
}

#[test]
fn orientation_of_square() {
    assert_eq!(
        Orientation::from_aspect_ratio(&AspectRatio { width: 2, height: 2 }),
        Orientation::Landscape
    );
    assert_eq!(
        Orientation::from_aspect_ratio(&AspectRatio { width: 2, height: 3 }),
        Orientation::Portrait
    );
    assert_eq!(Dimension { width: 2, height: 2 }.orientation(), Orientation::Landscape);
    assert_eq!(Dimension { width: 1, height: 2 }.orientation(), Orientation::Portrait);
}

#[test]
fn aspect_ratio_is_reduced() {
    let r = Dimension { width: 6048, height: 4024 }.aspect_ratio();
    assert_eq!(r, AspectRatio { width: 756, height: 503 });
    let s = Dimension { width: 1920, height: 1080 }.aspect_ratio();
    assert_eq!(s, AspectRatio { width: 16, height: 9 });
    assert_eq!(gcd_usize(12, 18), 6);
    assert_eq!(gcd_usize(0, 5), 5);
}

#[test]
fn clamp_width_scales_height_down() {
    let r = RoundedAspectRatio::<2>::from_aspect_ratio(&AspectRatio { width: 3600, height: 2401 });
    assert_eq!(r.clamp_width_to(5), Dimension { width: 3, height: 2 });
    assert_eq!(r.clamp_width_to(3), Dimension { width: 3, height: 2 });
    assert_eq!(r.clamp_width_to(2), Dimension { width: 2, height: 1 });
    let p = RoundedAspectRatio::<2>::from_aspect_ratio(&AspectRatio { width: 856, height: 1280 });
    assert_eq!(p.clamp_width_to(1), Dimension { width: 1, height: 1 });
    let wide = RoundedAspectRatio::<2>::from_aspect_ratio(&AspectRatio { width: 1000, height: 100 });
    assert_eq!(wide.width(), 20);
    assert_eq!(wide.clamp_width_to(4), Dimension { width: 4, height: 1 });
}

#[test]
fn parses_ratio_and_dimension() {
    assert_eq!(AspectRatio::parse("3:2"), Ok(AspectRatio { width: 3, height: 2 }));
    assert_eq!("16:9".parse::<AspectRatio>(), Ok(AspectRatio { width: 16, height: 9 }));
    assert_eq!(Dimension::parse("640x480"), Ok(Dimension { width: 640, height: 480 }));
    assert_eq!("0x7".parse::<Dimension>(), Ok(Dimension { width: 0, height: 7 }));
}

#[test]
fn parse_separator_errors() {
    assert_eq!(AspectRatio::parse("32"), Err(ParseError::Separator));
    assert_eq!(AspectRatio::parse("3:2:1"), Err(ParseError::Separator));
    assert_eq!(AspectRatio::parse("3:2x"), Err(ParseError::Separator));
    assert_eq!(Dimension::parse("640:480"), Err(ParseError::Separator));
    assert_eq!(AspectRatio::parse(""), Err(ParseError::Separator));
}

#[test]
fn parse_int_errors() {
    assert_eq!(AspectRatio::parse("a:2"), Err(ParseError::ParseInt));
    assert_eq!(AspectRatio::parse("3:"), Err(ParseError::ParseInt));
    assert_eq!(AspectRatio::parse(":2"), Err(ParseError::ParseInt));
    assert_eq!(AspectRatio::parse("3:-2"), Err(ParseError::ParseInt));
    assert_eq!(AspectRatio::parse("4294967296:1"), Err(ParseError::ParseInt));
    assert_eq!(
        AspectRatio::parse("4294967295:1"),
        Ok(AspectRatio { width: 4294967295, height: 1 })
    );
}

#[test]
fn grid_index_conversions() {
    let g = Grid::<usize>::new_with_height(4, 3);
    assert_eq!(g.to_dimension(6), Coord { x: 2, y: 1 });
    assert_eq!(g.to_index(Coord { x: 2, y: 1 }), 6);
    assert_eq!(g.width(), 4);
    assert_eq!(g.with_index(Coord { x: 3, y: 2 }, |i, cells| (i, cells.len())), (11, 12));
    let empty = Grid::<usize>::new_with_height(4, 0);
    assert_eq!(empty.as_slice().len(), 0);
}

#[test]
fn neighbours_in_plus_and_x() {
    let g = Grid::<usize>::new_with_height(3, 3);
    assert_eq!(
        g.neighbours_coords(Coord { x: 2, y: 0 }, Neighbours::Plus),
        vec![Coord { x: 1, y: 0 }, Coord { x: 2, y: 1 }]
    );
    assert_eq!(
        g.neighbours_coords(Coord { x: 1, y: 1 }, Neighbours::X),
        vec![Coord { x: 0, y: 0 }, Coord { x: 2, y: 0 }, Coord { x: 0, y: 2 }, Coord { x: 2, y: 2 }]
    );
    assert_eq!(g.neighbours(Coord { x: 0, y: 0 }, Neighbours::Ring).len(), 3);
}

#[test]
fn grid_content_accessors() {
    let c = GridContent::new(5usize, Dimension { width: 2, height: 3 }, Coord { x: 1, y: 4 });
    assert_eq!(c.height_range(), 4..7);
    let (size, origin) = c.grid_area();
    assert_eq!(*size, Dimension { width: 2, height: 3 });
    assert_eq!(*origin, Coord { x: 1, y: 4 });
    let m = c.map(|v| v * 10);
    assert_eq!(*m.content(), 50);
    assert_eq!(m.size, c.size);
}

#[derive(Debug, PartialEq)]
struct Photo {
    ratio: AspectRatio,
}

fn responsive() -> ResponsivePhotoGrid<Photo> {
    let photos = vec![
        Photo { ratio: AspectRatio { width: 3, height: 2 } },
        Photo { ratio: AspectRatio { width: 2, height: 3 } },
        Photo { ratio: AspectRatio { width: 3, height: 2 } },
        Photo { ratio: AspectRatio { width: 1, height: 1 } },
    ];
    ResponsivePhotoGrid::new(photos, &[3, 4], |p, (_idx, cols)| {
        let r = RoundedAspectRatio::<2>::from_aspect_ratio(&AspectRatio {
            width: p.ratio.width * 100,
            height: p.ratio.height * 100,
        });
        r.clamp_width_to(cols)
    })
}

#[test]
fn responsive_grid_places_every_item_per_breakpoint() {
    let g = responsive();
    let grids = g.grids();
    assert_eq!(grids.len(), 2);
    assert_eq!(grids[0].width, 3);
    assert_eq!(grids[1].width, 4);
    for grid in &grids {
        assert_eq!(grid.grid.len(), 4);
        let mut taken = std::collections::HashSet::new();
        for p in &grid.grid {
            assert!(p.origin.x + p.size.width <= grid.width);
            for c in cells_of(p) {
                assert!(taken.insert(c));
            }
        }
    }
    assert_eq!(g.contents_len(), 4);
    let slot = g.contents_at(0);
    assert_eq!(slot.len(), 2);
    assert!(g.contents_at(9).is_empty());
}

#[test]
fn responsive_grid_layout_values() {
    let g = responsive();
    let grids = g.grids();
    // three columns: nothing fits beside the first two items, so each
    // later one starts a new row
    let first: Vec<(Coord<usize>, Dimension)> =
        grids[0].grid.iter().map(|p| (p.origin, p.size)).collect();
    assert_eq!(
        first,
        vec![
            (Coord { x: 0, y: 0 }, Dimension { width: 3, height: 2 }),
            (Coord { x: 0, y: 2 }, Dimension { width: 2, height: 3 }),
            (Coord { x: 0, y: 5 }, Dimension { width: 3, height: 2 }),
            (Coord { x: 0, y: 7 }, Dimension { width: 2, height: 2 }),
        ]
    );
}

#[test]
fn grow_to_width_and_parts_round_trip() {
    let g = responsive().grow_to_width();
    let (grids, data) = g.into_parts();
    let widths: Vec<usize> = grids.iter().map(|p| p.width).collect();
    let back = ResponsivePhotoGrid::from_parts(grids.clone(), data).expect("valid parts");
    let again = back.grids();
    assert_eq!(again.iter().map(|p| p.width).collect::<Vec<_>>(), widths);
    for (a, b) in again.iter().zip(grids.iter()) {
        let sizes_a: Vec<Dimension> = a.grid.iter().map(|p| p.size).collect();
        let sizes_b: Vec<Dimension> = b.grid.iter().map(|p| p.size).collect();
        assert_eq!(sizes_a, sizes_b);
    }
}

#[test]
fn from_parts_rejects_bad_placements() {
    let bad = PhotoGrid {
        grid: vec![GridContent::new(3usize, Dimension { width: 1, height: 1 }, Coord { x: 0, y: 0 })],
        width: 2,
    };
    assert!(ResponsivePhotoGrid::from_parts(vec![bad], vec![1u8, 2, 3]).is_none());
    let wide = PhotoGrid {
        grid: vec![GridContent::new(0usize, Dimension { width: 2, height: 1 }, Coord { x: 1, y: 0 })],
        width: 2,
    };
    assert!(ResponsivePhotoGrid::from_parts(vec![wide], vec![1u8]).is_none());
}

#[test]
fn square_ratio_rounds_as_landscape() {
    let r = RoundedAspectRatio::<4>::from_aspect_ratio(&AspectRatio { width: 11, height: 11 });
    assert_eq!(r.orientation(), Orientation::Landscape);
    assert_eq!((r.width(), r.height()), (5, 4));
}

#[test]
fn contents_at_finds_the_item_not_the_slot() {
    let sizes = vec![
        Dimension { width: 2, height: 1 },
        Dimension { width: 2, height: 1 },
        Dimension { width: 1, height: 1 },
    ];
    let g = ResponsivePhotoGrid::new(sizes, &[3, 4], |d, _| *d);
    let at = g.contents_at(1);
    assert_eq!(at.len(), 2);
    assert_eq!(*at[0].0, Dimension { width: 2, height: 1 });
    assert_eq!(at[0].1.data, 1);
    assert_eq!(at[0].1.origin, Coord { x: 0, y: 1 });
    assert_eq!(at[1].1.data, 1);
    assert_eq!(at[1].1.origin, Coord { x: 2, y: 0 });
    let third = g.contents_at(2);
    assert_eq!(third[0].1.origin, Coord { x: 2, y: 0 });
    assert!(g.contents_at(3).is_empty());
}

#[test]
fn with_index_mut_changes_one_cell() {
    let mut g = Grid::<usize>::new_with_height(3, 2);
    let idx = g.with_index_mut(Coord { x: 1, y: 1 }, |i, cells| {
        cells[i] = 9;
        i
    });
    assert_eq!(idx, 4);
    assert_eq!(g.as_slice(), &[0, 0, 0, 0, 9, 0]);
}

#[test]
fn from_parts_rejects_a_missing_or_repeated_item() {
    let twice = PhotoGrid {
        grid: vec![
            GridContent::new(0usize, Dimension { width: 1, height: 1 }, Coord { x: 0, y: 0 }),
            GridContent::new(0usize, Dimension { width: 1, height: 1 }, Coord { x: 1, y: 0 }),
        ],
        width: 2,
    };
    assert!(ResponsivePhotoGrid::from_parts(vec![twice], vec![1u8, 2]).is_none());
    let missing = PhotoGrid {
        grid: vec![GridContent::new(0usize, Dimension { width: 1, height: 1 }, Coord { x: 0, y: 0 })],
        width: 2,
    };
    assert!(ResponsivePhotoGrid::from_parts(vec![missing], vec![1u8, 2]).is_none());
}

#[test]
fn from_parts_rejects_overlap_and_empty_spans() {
    let overlapping = PhotoGrid {
        grid: vec![
            GridContent::new(0usize, Dimension { width: 2, height: 1 }, Coord { x: 0, y: 0 }),
            GridContent::new(1usize, Dimension { width: 1, height: 2 }, Coord { x: 1, y: 0 }),
        ],
        width: 3,
    };
    assert!(ResponsivePhotoGrid::from_parts(vec![overlapping], vec![1u8, 2]).is_none());
    let empty = PhotoGrid {
        grid: vec![GridContent::new(0usize, Dimension { width: 0, height: 1 }, Coord { x: 0, y: 0 })],
        width: 3,
    };
    assert!(ResponsivePhotoGrid::from_parts(vec![empty], vec![1u8]).is_none());
    let fine = PhotoGrid {
        grid: vec![
            GridContent::new(0usize, Dimension { width: 2, height: 1 }, Coord { x: 0, y: 0 }),
            GridContent::new(1usize, Dimension { width: 1, height: 2 }, Coord { x: 2, y: 0 }),
        ],
        width: 3,
    };
    assert!(ResponsivePhotoGrid::from_parts(vec![fine], vec![1u8, 2]).is_some());
}
