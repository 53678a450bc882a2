use vstd::prelude::*;

verus! {

/// Raw state code that marks a mine.
pub const MINE: u8 = 0xff;

/// State of one grid position: a mine, or the number of mines around it.
#[derive(Clone, Copy, Debug, PartialEq, Eq, Structural)]
pub enum Cell {
    Mine,
    Count(u8),
}

/// True when `code` is a valid raw state code: a count in `0..=8` or `MINE`.
pub open spec fn valid_code(code: u8) -> bool {
    code <= 8 || code == MINE
}

/// The cell that a raw state code stands for.
pub open spec fn cell_of(code: u8) -> Cell {
    if code == MINE {
        Cell::Mine
    } else {
        Cell::Count(code)
    }
}

/// What `inc` turns a cell into: a count goes up by one, a mine stays a mine.
pub open spec fn inc_spec(c: Cell) -> Cell {
    match c {
        Cell::Mine => Cell::Mine,
        Cell::Count(n) => Cell::Count((n + 1) as u8),
    }
}

impl Cell {
    /// A cell is a mine or a count of at most eight.
    pub open spec fn wf(self) -> bool {
        match self {
            Cell::Mine => true,
            Cell::Count(n) => n <= 8,
        }
    }

    /// The raw state code of the cell.
    pub open spec fn code(self) -> u8 {
        match self {
            Cell::Mine => MINE,
            Cell::Count(n) => n,
        }
    }

    /// A cell whose `inc` stays within the valid counts.
    pub open spec fn can_inc(self) -> bool {
        match self {
            Cell::Mine => true,
            Cell::Count(n) => n < 8,
        }
    }

    /// Builds a cell from a raw state code.
    pub fn new(code: u8) -> (r: Cell)
        requires
            valid_code(code),
        ensures
            r == cell_of(code),
            r.wf(),
            r.code() == code,
    {
        if code == MINE {
            Cell::Mine
        } else {
            Cell::Count(code)
        }
    }

    /// Returns the raw state code.
    pub fn get(&self) -> (r: u8)
        ensures
            r == self.code(),
    {
        match self {
            Cell::Mine => MINE,
            Cell::Count(n) => *n,
        }
    }

    /// Overwrites the state with the one a raw code stands for.
    pub fn set(&mut self, code: u8)
        requires
            valid_code(code),
        ensures
            *final(self) == cell_of(code),
            final(self).code() == code,
    {
        *self = Cell::new(code);
    }

    /// Tells whether the cell is a mine.
    pub fn is_mine(&self) -> (r: bool)
        ensures
            r == (*self is Mine),
    {
        match self {
            Cell::Mine => true,
            Cell::Count(_) => false,
        }
    }

    /// Adds one to a count; a mine is left as it is.
    pub fn inc(&mut self)
        requires
            old(self).can_inc(),
        ensures
            *final(self) == inc_spec(*old(self)),
            final(self).wf(),
    {
        match self {
            Cell::Mine => {},
            Cell::Count(n) => {
                *n = *n + 1;
            },
        }
    }
}

} // verus!
