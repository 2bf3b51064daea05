//! # Cells
//!
//! A [`Cell`] is one rectangular region of the domain together with the
//! user-defined data attached to it. The cell does not interpret the data.
//!
//! The only responsibilities of a cell are:
//!
//! - storing its rectangular bounds,
//! - storing its depth in the quadtree,
//! - exposing geometric queries delegated to [`Rect`],
//! - producing its four child cells by splitting its bounds into quadrants.
use vstd::prelude::*;

use crate::{
    geometry::{Point, Rect},
    scaling::ScalerError,
};

verus! {

/// A rectangular quadtree cell with associated user-defined data.
#[derive(Debug, Clone)]
pub struct Cell<D> {
    bounds: Rect,
    depth: usize,
    data: D,
}

impl<D> Cell<D> {
    pub closed spec fn spec_bounds(&self) -> Rect {
        self.bounds
    }

    pub closed spec fn spec_depth(&self) -> usize {
        self.depth
    }

    pub closed spec fn spec_data(&self) -> D {
        self.data
    }

    /// Creates a new cell with explicit bounds, depth, and data.
    pub fn new(bounds: Rect, depth: usize, data: D) -> (r: Self)
        ensures
            r.spec_bounds() == bounds,
            r.spec_depth() == depth,
            r.spec_data() == data,
    {
        Self { bounds, depth, data }
    }

    /// Returns the rectangular bounds of the cell.
    pub fn bounds(&self) -> (r: Rect)
        ensures
            r == self.spec_bounds(),
    {
        self.bounds
    }

    /// Returns the depth of the cell in the quadtree; the root has depth `0`
    /// and each refinement adds one.
    pub fn depth(&self) -> (r: usize)
        ensures
            r == self.spec_depth(),
    {
        self.depth
    }

    /// Returns a reference to the cell data.
    pub fn data(&self) -> (r: &D)
        ensures
            *r == self.spec_data(),
    {
        &self.data
    }

    /// Returns a mutable reference to the cell data; bounds and depth stay as they are.
    pub fn data_mut(&mut self) -> (r: &mut D)
        ensures
            *r == old(self).spec_data(),
            final(self).spec_bounds() == old(self).spec_bounds(),
            final(self).spec_depth() == old(self).spec_depth(),
            final(self).spec_data() == *final(r),
    {
        &mut self.data
    }

    /// Consumes the cell and returns its bounds, depth and data.
    pub fn into_parts(self) -> (r: (Rect, usize, D))
        ensures
            r == (self.spec_bounds(), self.spec_depth(), self.spec_data()),
    {
        (self.bounds, self.depth, self.data)
    }

    /// Returns the centre point of the cell.
    pub fn centre(&self) -> (r: Point)
        ensures
            r == self.spec_bounds().spec_centre(),
    {
        self.bounds.centre()
    }

    /// Returns the area of the cell.
    pub fn area(&self) -> (r: i128)
        requires
            self.spec_bounds().bounded(),
        ensures
            r == self.spec_bounds().spec_area(),
    {
        self.bounds.area()
    }

    /// Returns the width of the cell.
    pub fn width(&self) -> (r: i128)
        ensures
            r == self.spec_bounds().spec_width(),
    {
        self.bounds.width()
    }

    /// Returns the height of the cell.
    pub fn height(&self) -> (r: i128)
        ensures
            r == self.spec_bounds().spec_height(),
    {
        self.bounds.height()
    }

    /// Returns the longer side length of the cell.
    pub fn longest_side(&self) -> (r: i128)
        ensures
            r == (if self.spec_bounds().spec_width() >= self.spec_bounds().spec_height() {
                self.spec_bounds().spec_width()
            } else {
                self.spec_bounds().spec_height()
            }),
    {
        self.bounds.longest_side()
    }

    /// Returns the diagonal length of the cell, rounded down to a whole step.
    pub fn diameter(&self) -> (r: i64)
        requires
            self.spec_bounds().bounded(),
        ensures
            r >= 0,
            r * r <= self.spec_bounds().spec_diagonal_sq() < (r + 1) * (r + 1),
    {
        self.bounds.diameter()
    }

    /// Splits the cell into four children, one per quadrant of its bounds,
    /// each one level deeper. `make_data` is called once per child
    /// rectangle, in quadrant order, to produce that child's data.
    pub fn children<F: FnMut(Rect) -> D>(&self, make_data: F) -> (r: Result<[Cell<D>; 4], ScalerError>)
        requires
            self.spec_depth() < usize::MAX,
            forall|b: Rect| call_requires(make_data, (b,)),
        ensures
            r matches Err(e) ==> self.spec_bounds().spec_quadrants() == Err::<Seq<Rect>, ScalerError>(e),
            r matches Ok(cs) ==> {
                &&& self.spec_bounds().spec_quadrants() is Ok
                &&& forall|i: int| 0 <= i < 4 ==> {
                    &&& (#[trigger] cs@[i]).spec_bounds() == self.spec_bounds().quadrant_rects()[i]
                    &&& cs@[i].spec_depth() == self.spec_depth() + 1
                    &&& call_ensures(make_data, (cs@[i].spec_bounds(),), cs@[i].spec_data())
                }
            },
    {
        let mut make_data = make_data;
        let depth = self.depth + 1;
        let qs = self.bounds.quadrants()?;
        let sw = qs[0];
        let se = qs[1];
        let nw = qs[2];
        let ne = qs[3];
        let d0 = make_data(sw);
        let d1 = make_data(se);
        let d2 = make_data(nw);
        let d3 = make_data(ne);
        let cs = [
            Cell::new(sw, depth, d0),
            Cell::new(se, depth, d1),
            Cell::new(nw, depth, d2),
            Cell::new(ne, depth, d3),
        ];
        Ok(cs)
    }
}

} // verus!
