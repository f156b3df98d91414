//! Pagination and sort parameters.

use crate::collections::Same;
use crate::fields::Path;
use vstd::prelude::*;

verus! {

/// Page-number based pagination parameters.
#[derive(Clone, Copy, Debug, PartialEq, Eq, Hash, PartialOrd, Ord)]
pub struct Page {
    /// The page number, never zero: zero given to the constructor or decoded
    /// from a query string becomes `1`.
    pub number: u64,
    /// The maximum number of items per page, if any.
    pub size: Option<u64>,
}

impl Page {
    /// A page; a `number` of zero is treated as `1`.
    pub fn new(number: u64, size: Option<u64>) -> (r: Page)
        ensures
            r.number == if number > 0 { number } else { 1 },
            r.size == size,
    {
        let number = if number > 0 { number } else { 1 };
        Page { number, size }
    }

    /// Whether this page equals the default one.
    pub fn is_default(&self) -> (r: bool)
        ensures
            r == (self.number == 1 && self.size is None),
    {
        self.number == 1 && self.size.is_none()
    }
}

impl Default for Page {
    fn default() -> (r: Page)
        ensures
            r.number == 1 && r.size is None,
    {
        Page::new(1, None)
    }
}

/// The direction of one sort criterion.
#[derive(Clone, Copy, Debug, PartialEq, Eq, Hash, Structural)]
pub enum Direction {
    Asc,
    Desc,
}

/// One sort criterion: a path and a direction.
///
/// Its view is the segments of the path and the direction.
#[derive(Debug, Clone, PartialEq, Eq, Hash)]
pub struct Sort {
    pub field: Path,
    pub direction: Direction,
}

impl View for Sort {
    type V = (Seq<Seq<char>>, Direction);

    open spec fn view(&self) -> (Seq<Seq<char>>, Direction) {
        (self.field@, self.direction)
    }
}

impl Same for Sort {
    fn same(&self, other: &Sort) -> (r: bool) {
        self.field.same(&other.field) && self.direction == other.direction
    }
}

impl Sort {
    /// A sort criterion on `field`.
    pub fn new(field: Path, direction: Direction) -> (r: Sort)
        ensures
            r.field@ == field@,
            r.direction == direction,
    {
        Sort { field, direction }
    }

    /// Whether `self` is descending.
    pub fn is_desc(&self) -> (r: bool)
        ensures
            r == (self.direction == Direction::Desc),
    {
        match self.direction {
            Direction::Asc => false,
            Direction::Desc => true,
        }
    }
}

} // verus!
