//! The requested grid shape: how many rows and columns the screen is split
//! into, parsed from a `"RxC"` option string.

use vstd::prelude::*;
use vstd::string::StrSliceExecFns;
use crate::numtext::parse_u32;
use crate::numtext::parse_u32_spec;

verus! {

/// A validated grid shape.  Both dimensions are at least 1: a grid with zero
/// rows or zero columns has no cells to place a window into.
#[derive(Debug, PartialEq, Eq, Structural)]
pub struct Grid {
    pub rows: u32,
    pub columns: u32,
}

/// The first position at or after `i` holding the separator `x` (or the end
/// of `s`).
pub open spec fn x_end(s: Seq<char>, i: int) -> int
    decreases s.len() - i when 0 <= i <= s.len()
{
    if i < s.len() && s[i] != 'x' {
        x_end(s, i + 1)
    } else {
        i
    }
}

/// What the grid option accepts and yields: a rows field and a columns field
/// separated by `x` (text after a second `x` is ignored), both unsigned
/// decimal numbers, both at least 1.
pub open spec fn grid_of(s: Seq<char>) -> Option<Grid> {
    let ix = x_end(s, 0);
    if ix == s.len() {
        None
    } else {
        let iy = x_end(s, ix + 1);
        match (parse_u32_spec(s.subrange(0, ix)), parse_u32_spec(s.subrange(ix + 1, iy))) {
            (Some(r), Some(c)) => if r >= 1 && c >= 1 {
                Some(Grid { rows: r, columns: c })
            } else {
                None
            },
            _ => None,
        }
    }
}

/// The first position at or after `from` holding an `x`.
fn scan_to_x(s: &str, from: usize) -> (r: usize)
    requires
        from <= s@.len(),
    ensures
        from <= r <= s@.len(),
        r == x_end(s@, from as int),
{
    let n = s.unicode_len();
    let mut i = from;
    loop
        invariant
            n == s@.len(),
            from <= i <= n,
            x_end(s@, from as int) == x_end(s@, i as int),
        ensures
            from <= i <= n,
            i == x_end(s@, from as int),
        decreases n - i,
    {
        if i == n {
            break ;
        }
        if s.get_char(i) == 'x' {
            break ;
        }
        i = i + 1;
    }
    i
}

impl Grid {
    /// The shape invariant: at least one row and one column.
    pub open spec fn wf(self) -> bool {
        self.rows >= 1 && self.columns >= 1
    }

    /// Parse a `"RxC"` option string.  Accepted exactly when the text up to
    /// the first `x` and the text between the first and second `x` (or the
    /// end) are decimal numbers of at least 1; everything after a second `x`
    /// is ignored.
    pub fn try_from(value: String) -> (r: Result<Grid, &'static str>)
        ensures
            match r {
                Ok(g) => grid_of(value@) == Some(g) && g.wf(),
                Err(_) => grid_of(value@) is None,
            },
    {
        let s = value.as_str();
        let n = s.unicode_len();
        let ix = scan_to_x(s, 0);
        if ix == n {
            return Err("missing column");
        }
        let row_txt = s.substring_char(0, ix);
        let iy = scan_to_x(s, ix + 1);
        let col_txt = s.substring_char(ix + 1, iy);
        let row = match parse_u32(row_txt) {
            Some(r) => r,
            None => {
                return Err("invalid grid");
            },
        };
        let column = match parse_u32(col_txt) {
            Some(c) => c,
            None => {
                return Err("invalid grid");
            },
        };
        if row >= 1 && column >= 1 {
            Ok(Grid { rows: row, columns: column })
        } else {
            Err("invalid grid")
        }
    }
}

} // verus!
