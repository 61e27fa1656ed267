use photogrid::{
    AspectRatio, Coord, Dimension, FromAspectRatio, Grid, GridContent, Intersect, Neighbours,
    NormalizedAspectRatio, Orientation, PhotoGrid, RoundedAspectRatio, Size,
};
use std::ops::Not;

fn landscape(long_edge: usize) -> NormalizedAspectRatio {
    NormalizedAspectRatio { orientation: Orientation::Landscape, long_edge }
}

fn portrait(long_edge: usize) -> NormalizedAspectRatio {
    NormalizedAspectRatio { orientation: Orientation::Portrait, long_edge }
}

#[test]
fn it_should_return_3_to_2_for_z6_dimensions() {
    let a = RoundedAspectRatio::<2>::from_aspect_ratio(&AspectRatio { width: 6048, height: 4024 });
    assert_eq!(a.width(), 3);
    assert_eq!(a.height(), 2);
}

#[test]
fn it_should_round_aspect() {
    let a = RoundedAspectRatio::<2>::from_aspect_ratio(&AspectRatio { width: 856, height: 1280 });
    assert_eq!(a.width(), 2);
    assert_eq!(a.height(), 3);
}

#[test]
fn it_should_layout_a() {
    let data = vec![landscape(2)];
    let mut grid = Grid::new(4);
    grid.add_all(&data);
    assert_eq!(grid.as_slice(), &[Some(0), Some(0), None, None]);
}

#[test]
fn it_should_layout_b() {
    let data = vec![portrait(2), portrait(2), landscape(2), landscape(2)];
    let mut grid = Grid::new(4);
    grid.add_all(&data);
    assert_eq!(
        grid.as_slice(),
        &[Some(0), Some(1), Some(2), Some(2), Some(0), Some(1), Some(3), Some(3)]
    );
}

#[test]
fn it_should_layout_c() {
    let data = vec![landscape(2), landscape(2), portrait(2), portrait(2)];
    let mut grid = Grid::new(4);
    grid.add_all(&data);
    assert_eq!(
        grid.as_slice(),
        &[
            Some(0),
            Some(0),
            Some(1),
            Some(1),
            Some(2),
            Some(3),
            None,
            None,
            Some(2),
            Some(3),
            None,
            None
        ]
    );
}

#[test]
fn off_by_1_aspect() {
    let data = RoundedAspectRatio::<2>::from_aspect_ratio(&AspectRatio { width: 3600, height: 2401 });
    assert_eq!(data.long_edge(), 3);
    assert_eq!(data.orientation(), Orientation::Landscape);
}

#[test]
fn it_should_not_intersect() {
    let a = 5..10;
    let b = 10..12;
    assert!(a.does_intersect(&b).not())
}

#[test]
fn it_should_intersect() {
    let a = 5..10;
    let b = 9..12;
    assert!(a.does_intersect(&b))
}

#[test]
fn height_works() {
    let height = 100;
    let width = 100;
    let g = Grid::<usize>::new_with_height(width, height);
    assert_eq!(g.height(), height);
    assert_eq!(g.as_slice().len(), width * height);
}

#[test]
fn neighbours_iterates_properly() {
    let g = Grid::<usize>::new_with_height(100, 100);
    let out: Vec<_> = g.neighbours_coords(Coord { x: 0, y: 0 }, Neighbours::Ring);
    assert_eq!(out, vec![Coord { x: 1, y: 0 }, Coord { x: 0, y: 1 }, Coord { x: 1, y: 1 }]);
}

#[test]
fn neighbours_iterates_properly_2() {
    let g = Grid::<usize>::new_with_height(100, 100);
    let out: Vec<_> = g.neighbours_coords(Coord { x: 10, y: 10 }, Neighbours::Ring);
    assert_eq!(
        out,
        vec![
            Coord { x: 10, y: 9 },
            Coord { x: 9, y: 10 },
            Coord { x: 11, y: 10 },
            Coord { x: 10, y: 11 },
            Coord { x: 9, y: 9 },
            Coord { x: 11, y: 9 },
            Coord { x: 9, y: 11 },
            Coord { x: 11, y: 11 }
        ]
    );
}

fn area(c: &GridContent<NormalizedAspectRatio>) -> (Coord<usize>, Dimension) {
    (c.origin, c.size)
}

#[test]
fn it_should_iterate_properly() {
    let data = vec![landscape(2), landscape(2), portrait(2)];
    let g = PhotoGrid::new_with_mapper(data.as_slice(), 4, |x| *x);
    let areas: Vec<_> = g.grid.iter().map(area).collect();
    assert_eq!(
        areas,
        vec![
            (Coord { x: 0, y: 0 }, Dimension { height: 1, width: 2 }),
            (Coord { x: 2, y: 0 }, Dimension { height: 1, width: 2 }),
            (Coord { x: 0, y: 1 }, Dimension { height: 2, width: 1 }),
        ]
    );
}

#[test]
fn another_test() {
    let data = vec![portrait(2), portrait(2), portrait(2), landscape(2)];
    let g = PhotoGrid::new_with_mapper(data.as_slice(), 4, |x| *x);
    let areas: Vec<_> = g.grid.iter().map(area).collect();
    assert_eq!(
        areas,
        vec![
            (Coord { x: 0, y: 0 }, Dimension { height: 2, width: 1 }),
            (Coord { x: 1, y: 0 }, Dimension { height: 2, width: 1 }),
            (Coord { x: 2, y: 0 }, Dimension { height: 2, width: 1 }),
            (Coord { x: 0, y: 2 }, Dimension { height: 1, width: 2 }),
        ]
    );
}
