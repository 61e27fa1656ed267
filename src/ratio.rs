use vstd::prelude::*;
use crate::geometry::{AspectRatio, Dimension, Orientation, Size};

verus! {

/// The short and the long side of a ratio, in that order.
pub open spec fn short_long(ratio: AspectRatio) -> (nat, nat) {
    if ratio.width >= ratio.height {
        (ratio.height as nat, ratio.width as nat)
    } else {
        (ratio.width as nat, ratio.height as nat)
    }
}

/// Orientation of a ratio: landscape when at least as wide as tall.
pub open spec fn ratio_orientation(ratio: AspectRatio) -> Orientation {
    if ratio.width >= ratio.height {
        Orientation::Landscape
    } else {
        Orientation::Portrait
    }
}

/// Built from an aspect ratio.
pub trait FromAspectRatio: Sized {
    /// The ratios that the conversion is defined on.
    spec fn accepts(ratio: AspectRatio) -> bool;

    spec fn from_ratio(ratio: AspectRatio) -> Self;

    fn from_aspect_ratio(ratio: &AspectRatio) -> (r: Self)
        requires
            Self::accepts(*ratio),
        ensures
            r == Self::from_ratio(*ratio),
    ;
}

impl FromAspectRatio for Orientation {
    open spec fn accepts(ratio: AspectRatio) -> bool {
        true
    }

    open spec fn from_ratio(ratio: AspectRatio) -> Orientation {
        ratio_orientation(ratio)
    }

    fn from_aspect_ratio(ratio: &AspectRatio) -> (r: Orientation) {
        if ratio.width >= ratio.height {
            Orientation::Landscape
        } else {
            Orientation::Portrait
        }
    }
}

/// A ratio whose short edge is one cell and whose long edge is the
/// long side over the short side, rounded up.
#[derive(Clone, Copy, Debug, PartialEq, Eq)]
pub struct NormalizedAspectRatio {
    pub orientation: Orientation,
    pub long_edge: usize,
}

impl Size for NormalizedAspectRatio {
    open spec fn size_width(&self) -> nat {
        match self.orientation {
            Orientation::Portrait => 1,
            Orientation::Landscape => self.long_edge as nat,
        }
    }

    open spec fn size_height(&self) -> nat {
        match self.orientation {
            Orientation::Portrait => self.long_edge as nat,
            Orientation::Landscape => 1,
        }
    }

    fn width(&self) -> (r: usize) {
        match self.orientation {
            Orientation::Portrait => 1,
            Orientation::Landscape => self.long_edge,
        }
    }

    fn height(&self) -> (r: usize) {
        match self.orientation {
            Orientation::Portrait => self.long_edge,
            Orientation::Landscape => 1,
        }
    }
}

/// `a / b`, plus one when the division leaves a remainder.
pub open spec fn div_ceil(a: nat, b: nat) -> nat {
    if a % b > 0 {
        a / b + 1
    } else {
        a / b
    }
}

impl FromAspectRatio for NormalizedAspectRatio {
    open spec fn accepts(ratio: AspectRatio) -> bool {
        ratio.width > 0 && ratio.height > 0
    }

    open spec fn from_ratio(ratio: AspectRatio) -> NormalizedAspectRatio {
        NormalizedAspectRatio {
            orientation: ratio_orientation(ratio),
            long_edge: div_ceil(short_long(ratio).1, short_long(ratio).0) as usize,
        }
    }

    fn from_aspect_ratio(ratio: &AspectRatio) -> (r: NormalizedAspectRatio) {
        let orientation = Orientation::from_aspect_ratio(ratio);
        let (min, max) = match orientation {
            Orientation::Portrait => (ratio.width, ratio.height),
            Orientation::Landscape => (ratio.height, ratio.width),
        };
        let mut long_edge = max / min;
        if max % min > 0 {
            // min >= 2 here, so the quotient is at most half of usize::MAX
            assert(max / min < usize::MAX) by (nonlinear_arith)
                requires
                    min >= 1,
                    max % min > 0,
                    max <= usize::MAX,
            ;
            long_edge += 1;
        }
        NormalizedAspectRatio { orientation, long_edge }
    }
}

/// How the long edge is rounded when the short edge does not divide it.
#[derive(Clone, Copy, Debug, PartialEq, Eq)]
pub enum Rounding {
    /// One more cell when the remainder is over half the divisor.
    HalfUp,
    /// One more cell on any remainder.
    Up,
}

/// `a / b`, plus one when the remainder calls for it under `rounding`.
pub open spec fn div_round(a: nat, b: nat, rounding: Rounding) -> nat {
    let up = match rounding {
        Rounding::HalfUp => a % b > b / 2,
        Rounding::Up => a % b > 0,
    };
    if up {
        a / b + 1
    } else {
        a / b
    }
}

/// A ratio rounded to whole cells with `SIZE` cells on the short edge.
///
/// The divisor is the short side over `SIZE`; the long edge is the long side
/// over the divisor, rounded by a [`Rounding`] policy. [`FromAspectRatio`]
/// rounds half up; [`RoundedAspectRatio::from_aspect_ratio_with`] takes the
/// policy.
#[derive(Clone, Copy, Debug, PartialEq, Eq)]
pub struct RoundedAspectRatio<const SIZE: usize> {
    long_edge: usize,
    orientation: Orientation,
}

/// Long edge of `ratio` with `size` cells on the short edge.
pub open spec fn rounded_long_edge(ratio: AspectRatio, size: nat, rounding: Rounding) -> nat {
    div_round(short_long(ratio).1, short_long(ratio).0 / size, rounding)
}

impl<const SIZE: usize> RoundedAspectRatio<SIZE> {
    pub closed spec fn spec_long_edge(&self) -> nat {
        self.long_edge as nat
    }

    pub closed spec fn spec_orientation(&self) -> Orientation {
        self.orientation
    }

    /// The ratios that can be rounded: the short side holds at least `SIZE`.
    pub open spec fn can_round(ratio: AspectRatio) -> bool {
        SIZE > 0 && short_long(ratio).0 >= SIZE
    }

    pub fn long_edge(&self) -> (r: usize)
        ensures
            r == self.spec_long_edge(),
    {
        self.long_edge
    }

    pub fn orientation(&self) -> (r: Orientation)
        ensures
            r == self.spec_orientation(),
    {
        self.orientation
    }

    /// Rounds `ratio` under the given policy: the short side over `SIZE`
    /// gives the divisor, the long side over the divisor the long edge.
    pub fn from_aspect_ratio_with(ratio: &AspectRatio, rounding: Rounding) -> (r: Self)
        requires
            Self::can_round(*ratio),
        ensures
            r.spec_orientation() == ratio_orientation(*ratio),
            r.spec_long_edge() == rounded_long_edge(*ratio, SIZE as nat, rounding),
    {
        let orientation = Orientation::from_aspect_ratio(ratio);
        let (min, max) = match orientation {
            Orientation::Portrait => (ratio.width, ratio.height),
            Orientation::Landscape => (ratio.height, ratio.width),
        };
        let divisor = min / SIZE;
        assert(divisor >= 1) by (nonlinear_arith)
            requires
                min >= SIZE,
                SIZE > 0,
                divisor == min / SIZE,
        ;
        let mut long_edge = max / divisor;
        let up = match rounding {
            Rounding::HalfUp => max % divisor > divisor / 2,
            Rounding::Up => max % divisor > 0,
        };
        if up {
            assert(max / divisor < usize::MAX) by (nonlinear_arith)
                requires
                    max % divisor > 0,
                    divisor >= 1,
                    max <= usize::MAX,
            ;
            long_edge += 1;
        }
        RoundedAspectRatio { orientation, long_edge }
    }

    /// Fits the size into `max_width` columns: an item that is wider is
    /// scaled down to `max_width`, its height scaled by the same factor,
    /// rounded down, and kept at one cell at least.
    pub fn clamp_width_to(self, max_width: usize) -> (r: Dimension)
        ensures
            self.size_width() <= max_width ==> r.width == self.size_width() && r.height
                == self.size_height(),
            self.size_width() > max_width ==> r.width == max_width && r.height == clamped_height(
                self.size_height(),
                self.size_width(),
                max_width as nat,
            ),
    {
        let height = self.height();
        let width = self.width();
        if width <= max_width {
            return Dimension { width, height };
        }
        assert((height as u128) * (max_width as u128) <= u128::MAX) by (nonlinear_arith)
            requires
                height <= usize::MAX,
                max_width <= usize::MAX,
                usize::MAX <= u64::MAX,
        ;
        let product = (height as u128) * (max_width as u128);
        let scaled = product / (width as u128);
        assert(scaled <= height) by (nonlinear_arith)
            requires
                product == height * max_width,
                scaled as int == product as int / width as int,
                max_width < width,
        ;
        let mut new_height = scaled as usize;
        if new_height < 1 {
            new_height = 1;
        }
        Dimension { width: max_width, height: new_height }
    }
}

/// `height * max_width / width`, rounded down, but at least one.
pub open spec fn clamped_height(height: nat, width: nat, max_width: nat) -> nat {
    let h = height * max_width / width;
    if h < 1 {
        1
    } else {
        h
    }
}

impl<const SIZE: usize> Size for RoundedAspectRatio<SIZE> {
    open spec fn size_width(&self) -> nat {
        match self.spec_orientation() {
            Orientation::Portrait => SIZE as nat,
            Orientation::Landscape => self.spec_long_edge(),
        }
    }

    open spec fn size_height(&self) -> nat {
        match self.spec_orientation() {
            Orientation::Portrait => self.spec_long_edge(),
            Orientation::Landscape => SIZE as nat,
        }
    }

    fn width(&self) -> (r: usize) {
        match self.orientation {
            Orientation::Portrait => SIZE,
            Orientation::Landscape => self.long_edge,
        }
    }

    fn height(&self) -> (r: usize) {
        match self.orientation {
            Orientation::Portrait => self.long_edge,
            Orientation::Landscape => SIZE,
        }
    }
}

impl<const SIZE: usize> FromAspectRatio for RoundedAspectRatio<SIZE> {
    open spec fn accepts(ratio: AspectRatio) -> bool {
        Self::can_round(ratio)
    }

    /// Rounds half up: one more cell only when the remainder is over half
    /// the divisor.
    closed spec fn from_ratio(ratio: AspectRatio) -> RoundedAspectRatio<SIZE> {
        RoundedAspectRatio {
            orientation: ratio_orientation(ratio),
            long_edge: rounded_long_edge(ratio, SIZE as nat, Rounding::HalfUp) as usize,
        }
    }

    fn from_aspect_ratio(ratio: &AspectRatio) -> (r: RoundedAspectRatio<SIZE>)
        ensures
            r.spec_orientation() == ratio_orientation(*ratio),
            r.spec_long_edge() == rounded_long_edge(*ratio, SIZE as nat, Rounding::HalfUp),
    {
        Self::from_aspect_ratio_with(ratio, Rounding::HalfUp)
    }
}

} // verus!
