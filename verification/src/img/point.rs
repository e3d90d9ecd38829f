use vstd::prelude::*;

verus! {

/// `[width, height]` or `[x, y]`.
pub type RawPoint<T> = [T; 2];

/// A point with coordinates `x` and `y`.
pub trait Point<T: Sized> {
    /// The first coordinate.
    spec fn spec_x(&self) -> T;

    /// The second coordinate.
    spec fn spec_y(&self) -> T;

    fn x(&self) -> (r: &T)
        ensures
            *r == self.spec_x(),
    ;

    fn y(&self) -> (r: &T)
        ensures
            *r == self.spec_y(),
    ;
}

/// A size with `width` and `height`.
pub trait Size<T: Sized> {
    /// The first dimension.
    spec fn spec_width(&self) -> T;

    /// The second dimension.
    spec fn spec_height(&self) -> T;

    fn width(&self) -> (r: &T)
        ensures
            *r == self.spec_width(),
    ;

    fn height(&self) -> (r: &T)
        ensures
            *r == self.spec_height(),
    ;
}

impl<T> Point<T> for [T; 2] {
    open spec fn spec_x(&self) -> T {
        self@[0]
    }

    open spec fn spec_y(&self) -> T {
        self@[1]
    }

    fn x(&self) -> (r: &T) {
        &self[0]
    }

    fn y(&self) -> (r: &T) {
        &self[1]
    }
}

impl<T> Size<T> for [T; 2] {
    open spec fn spec_width(&self) -> T {
        self@[0]
    }

    open spec fn spec_height(&self) -> T {
        self@[1]
    }

    fn width(&self) -> (r: &T) {
        &self[0]
    }

    fn height(&self) -> (r: &T) {
        &self[1]
    }
}

/// The origin.
pub const ZERO: RawPoint<i32> = [0, 0];

} // verus!
