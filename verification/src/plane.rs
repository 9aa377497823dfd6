//! A borrowed set of marked positions in a buffer, for a rendering layer to
//! highlight.

use vstd::prelude::*;

verus! {

/// A byte position in a buffer together with the value marked there.
struct Point {
    index: usize,
    value: u8,
}

/// A borrowed sequence of marked points.
pub struct Plane<'a> {
    points: &'a [Point],
}

} // verus!
