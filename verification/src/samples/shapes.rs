//! A point, a shape contract, and a sum.

use vstd::prelude::*;

verus! {

#[derive(Debug)]
pub struct Point {
    pub x: i32,
    pub y: i32,
}

pub trait Shape {
    /// The area as a mathematical integer.
    spec fn spec_area(&self) -> int;

    /// The area, where it fits the machine integer.
    fn area(&self) -> (r: i32)
        requires
            i32::MIN <= self.spec_area() <= i32::MAX,
        ensures
            r == self.spec_area(),
    ;
}

impl Point {
    pub fn new(x: i32, y: i32) -> (p: Point)
        ensures
            p.x == x,
            p.y == y,
    {
        Point { x, y }
    }
}

impl Shape for Point {
    open spec fn spec_area(&self) -> int {
        self.x * self.y
    }

    fn area(&self) -> (r: i32) {
        self.x * self.y
    }
}

pub fn calculate_sum(a: i32, b: i32) -> (r: i32)
    requires
        i32::MIN <= a + b <= i32::MAX,
    ensures
        r == a + b,
{
    a + b
}

} // verus!
