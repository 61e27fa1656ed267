use vstd::prelude::*;
use std::ops::Range;

verus! {

/// Width and height of a rectangle, in pixels or in grid cells.
#[derive(Debug, Clone, Copy, PartialEq, Eq)]
pub struct Dimension {
    pub width: usize,
    pub height: usize,
}

/// A width to height ratio; "W:H" in text.
#[derive(Debug, Clone, Copy, PartialEq, Eq)]
pub struct AspectRatio {
    pub width: usize,
    pub height: usize,
}

/// A cell of a grid, by column `x` and row `y`.
#[derive(Clone, Copy, Debug, PartialEq, Eq)]
pub struct Coord<T> {
    pub x: T,
    pub y: T,
}

#[derive(Clone, Copy, Debug, PartialEq, Eq)]
pub enum Orientation {
    Portrait,
    Landscape,
}

/// Landscape when the width is at least the height.
pub open spec fn orientation_of(width: int, height: int) -> Orientation {
    if width >= height {
        Orientation::Landscape
    } else {
        Orientation::Portrait
    }
}

pub open spec fn gcd(a: nat, b: nat) -> nat
    decreases b,
{
    if b == 0 {
        a
    } else {
        gcd(b, a % b)
    }
}

pub proof fn lemma_gcd_positive(a: nat, b: nat)
    requires
        a > 0 || b > 0,
    ensures
        gcd(a, b) > 0,
    decreases b,
{
    if b != 0 {
        lemma_gcd_positive(b, a % b);
    }
}

/// Greatest common divisor by Euclid's algorithm.
pub fn gcd_usize(a: usize, b: usize) -> (r: usize)
    ensures
        r == gcd(a as nat, b as nat),
{
    let mut x = a;
    let mut y = b;
    while y != 0
        invariant
            gcd(x as nat, y as nat) == gcd(a as nat, b as nat),
        decreases y,
    {
        let t = x % y;
        x = y;
        y = t;
    }
    x
}

/// Anything with a width and a height, in grid cells.
pub trait Size {
    spec fn size_width(&self) -> nat;

    spec fn size_height(&self) -> nat;

    fn width(&self) -> (r: usize)
        ensures
            r == self.size_width(),
    ;

    fn height(&self) -> (r: usize)
        ensures
            r == self.size_height(),
    ;

    /// Landscape when the width is at least the height, else portrait.
    fn orientation(&self) -> (r: Orientation)
        ensures
            r == orientation_of(self.size_width() as int, self.size_height() as int),
    {
        if self.width() >= self.height() {
            Orientation::Landscape
        } else {
            Orientation::Portrait
        }
    }

    /// Both sides divided by their greatest common divisor.
    fn aspect_ratio(&self) -> (r: AspectRatio)
        requires
            self.size_width() > 0 || self.size_height() > 0,
        ensures
            r.width == self.size_width() / gcd(self.size_width(), self.size_height()),
            r.height == self.size_height() / gcd(self.size_width(), self.size_height()),
    {
        let width = self.width();
        let height = self.height();
        let g = gcd_usize(width, height);
        proof {
            lemma_gcd_positive(width as nat, height as nat);
        }
        AspectRatio { width: width / g, height: height / g }
    }
}

impl Size for Dimension {
    open spec fn size_width(&self) -> nat {
        self.width as nat
    }

    open spec fn size_height(&self) -> nat {
        self.height as nat
    }

    fn width(&self) -> (r: usize) {
        self.width
    }

    fn height(&self) -> (r: usize) {
        self.height
    }
}

/// Whether two ranges share a value.
pub trait Intersect {
    spec fn intersects(&self, other: &Self) -> bool;

    fn does_intersect(&self, other: &Self) -> (r: bool)
        ensures
            r == self.intersects(other),
    ;
}

impl Intersect for Range<usize> {
    open spec fn intersects(&self, other: &Self) -> bool {
        self.start < other.end && other.start < self.end
    }

    fn does_intersect(&self, other: &Self) -> (r: bool) {
        self.start < other.end && other.start < self.end
    }
}

} // verus!
