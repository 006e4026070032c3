//! Grid cell addresses.

use vstd::prelude::*;

verus! {

/// The address of a cell: `x` counts columns from the left wall, `y` counts
/// rows from the floor. Also used for offsets between cells.
#[derive(PartialEq, Eq, Structural, PartialOrd, Ord, Default, Debug, Hash, Clone, Copy)]
pub struct Coord {
    pub x: i32,
    pub y: i32,
}

impl Coord {
    /// Whether the sum of the two coordinates can be computed: neither
    /// axis leaves the range of `i32`.
    pub open spec fn can_add(self, rhs: Coord) -> bool {
        &&& i32::MIN <= self.x + rhs.x <= i32::MAX
        &&& i32::MIN <= self.y + rhs.y <= i32::MAX
    }

    /// The sum of the two coordinates, axis by axis.
    pub open spec fn plus(self, rhs: Coord) -> Coord {
        Coord { x: (self.x + rhs.x) as i32, y: (self.y + rhs.y) as i32 }
    }

    pub fn new(x: i32, y: i32) -> (c: Coord)
        ensures
            c.x == x,
            c.y == y,
    {
        Coord { x, y }
    }
}

impl core::ops::Add for Coord {
    type Output = Coord;

    /// Adds the two coordinates axis by axis.
    fn add(self, rhs: Coord) -> (sum: Coord) {
        Coord { x: self.x + rhs.x, y: self.y + rhs.y }
    }
}

impl vstd::std_specs::ops::AddSpecImpl for Coord {
    open spec fn obeys_add_spec() -> bool {
        true
    }

    open spec fn add_req(self, rhs: Coord) -> bool {
        self.can_add(rhs)
    }

    open spec fn add_spec(self, rhs: Coord) -> Coord {
        self.plus(rhs)
    }
}

impl<'a> core::ops::Add<&'a Coord> for Coord {
    type Output = Coord;

    /// Adds the two coordinates axis by axis.
    fn add(self, rhs: &'a Coord) -> (sum: Coord) {
        Coord { x: self.x + rhs.x, y: self.y + rhs.y }
    }
}

impl<'a> vstd::std_specs::ops::AddSpecImpl<&'a Coord> for Coord {
    open spec fn obeys_add_spec() -> bool {
        true
    }

    open spec fn add_req(self, rhs: &'a Coord) -> bool {
        self.can_add(*rhs)
    }

    open spec fn add_spec(self, rhs: &'a Coord) -> Coord {
        self.plus(*rhs)
    }
}

impl<'a> core::ops::Add<Coord> for &'a Coord {
    type Output = Coord;

    /// Adds the two coordinates axis by axis.
    fn add(self, rhs: Coord) -> (sum: Coord) {
        Coord { x: self.x + rhs.x, y: self.y + rhs.y }
    }
}

impl<'a> vstd::std_specs::ops::AddSpecImpl<Coord> for &'a Coord {
    open spec fn obeys_add_spec() -> bool {
        true
    }

    open spec fn add_req(self, rhs: Coord) -> bool {
        self.can_add(rhs)
    }

    open spec fn add_spec(self, rhs: Coord) -> Coord {
        self.plus(rhs)
    }
}

impl<'a, 'b> core::ops::Add<&'b Coord> for &'a Coord {
    type Output = Coord;

    /// Adds the two coordinates axis by axis.
    fn add(self, rhs: &'b Coord) -> (sum: Coord) {
        Coord { x: self.x + rhs.x, y: self.y + rhs.y }
    }
}

impl<'a, 'b> vstd::std_specs::ops::AddSpecImpl<&'b Coord> for &'a Coord {
    open spec fn obeys_add_spec() -> bool {
        true
    }

    open spec fn add_req(self, rhs: &'b Coord) -> bool {
        self.can_add(*rhs)
    }

    open spec fn add_spec(self, rhs: &'b Coord) -> Coord {
        self.plus(*rhs)
    }
}

} // verus!
