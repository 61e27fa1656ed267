use photogrid::search::parse_rating;
use photogrid::{Dimension, PhotoLayoutData, ResponsivePhotoGrid, SearchFilter, SrcSet};

fn photo(sizes: &[(usize, usize)], metadata: &[(&str, &str)]) -> PhotoLayoutData {
    PhotoLayoutData {
        srcs: sizes
            .iter()
            .map(|(w, h)| SrcSet {
                dimensions: Dimension { width: *w, height: *h },
                url: format!("https://example.com/{w}x{h}.avif"),
            })
            .collect(),
        metadata: metadata.iter().map(|(k, v)| (k.to_string(), v.to_string())).collect(),
    }
}

#[test]
fn widest_src_takes_the_last_of_equal_widths() {
    let p = photo(&[(600, 400), (1200, 800), (1200, 900), (300, 200)], &[]);
    assert_eq!(p.widest_src(), Dimension { width: 1200, height: 900 });
}

#[test]
fn cell_size_rounds_then_clamps() {
    let p = photo(&[(6048, 4024)], &[]);
    assert_eq!(p.cell_size(12), Dimension { width: 3, height: 2 });
    assert_eq!(p.cell_size(3), Dimension { width: 3, height: 2 });
    let pano = photo(&[(4000, 500)], &[]);
    assert_eq!(pano.cell_size(12), Dimension { width: 16, height: 2 }.min_width(12));
    assert_eq!(pano.cell_size(4), Dimension { width: 4, height: 1 });
}

trait MinWidth {
    fn min_width(self, w: usize) -> Dimension;
}

impl MinWidth for Dimension {
    fn min_width(self, w: usize) -> Dimension {
        if self.width <= w {
            self
        } else {
            Dimension { width: w, height: std::cmp::max(1, self.height * w / self.width) }
        }
    }
}

#[test]
fn from_layout_data_builds_five_breakpoints() {
    let photos = vec![
        photo(&[(6048, 4024)], &[]),
        photo(&[(856, 1280)], &[]),
        photo(&[(3600, 2401)], &[]),
    ];
    let g = ResponsivePhotoGrid::from_layout_data(photos);
    let grids = g.grids();
    let widths: Vec<usize> = grids.iter().map(|p| p.width).collect();
    assert_eq!(widths, vec![3, 4, 6, 8, 12]);
    for grid in &grids {
        assert_eq!(grid.grid.len(), 3);
    }
    // four columns: 3x2, then 2x3 below it, then 3x2 below that
    let four: Vec<_> = grids[1].grid.iter().map(|p| (p.origin.x, p.origin.y, p.size)).collect();
    assert_eq!(
        four,
        vec![
            (0, 0, Dimension { width: 3, height: 2 }),
            (0, 2, Dimension { width: 2, height: 3 }),
            (0, 5, Dimension { width: 3, height: 2 }),
        ]
    );
}

#[test]
fn timestamp_and_rating_come_from_metadata() {
    let p = photo(&[(10, 10)], &[("timestamp", "2024-01-02T03:04:05Z"), ("rating", "4")]);
    assert_eq!(p.get_timestamp(), 1704164645);
    assert_eq!(p.get_rating(), 4);
    let q = photo(&[(10, 10)], &[("timestamp", "2024-01-02T04:04:05+01:00")]);
    assert_eq!(q.get_timestamp(), 1704164645);
}

#[test]
fn unreadable_metadata_defaults() {
    let p = photo(&[(10, 10)], &[("timestamp", "yesterday"), ("rating", "five")]);
    assert_eq!(p.get_timestamp(), 0);
    assert_eq!(p.get_rating(), 0);
    let q = photo(&[(10, 10)], &[]);
    assert_eq!(q.get_timestamp(), 0);
    assert_eq!(q.get_rating(), 0);
}

#[test]
fn rating_parser() {
    assert_eq!(parse_rating("0"), Some(0));
    assert_eq!(parse_rating("+7"), Some(7));
    assert_eq!(parse_rating("255"), Some(255));
    assert_eq!(parse_rating("256"), None);
    assert_eq!(parse_rating("-1"), None);
    assert_eq!(parse_rating(""), None);
    assert_eq!(parse_rating("+"), None);
    assert_eq!(parse_rating("4 "), None);
}

#[test]
fn search_filter_bounds() {
    let p = photo(&[(10, 10)], &[("timestamp", "2024-01-02T03:04:05Z"), ("rating", "3")]);
    assert!(SearchFilter::default().matches(&p));
    let before = SearchFilter { before: Some(1704164645), after: None, rating: None };
    assert!(before.matches(&p));
    let too_early = SearchFilter { before: Some(1704164644), after: None, rating: None };
    assert!(!too_early.matches(&p));
    let after = SearchFilter { before: None, after: Some(1704164646), rating: None };
    assert!(!after.matches(&p));
    let rated = SearchFilter { before: None, after: None, rating: Some(3) };
    assert!(rated.matches(&p));
    let higher = SearchFilter { before: None, after: None, rating: Some(4) };
    assert!(!higher.matches(&p));
    assert!(SearchFilter { before: Some(0), after: None, rating: None }.matches_values(-5, 0));
    assert!(!SearchFilter { before: None, after: Some(0), rating: None }.matches_values(-5, 0));
}
