//! The position-advance engine: given the store's prior record for the
//! focused window, the window's current geometry, and the requested grid,
//! decide which grid cell the window moves to next.

use vstd::prelude::*;
use crate::grid::Grid;
use crate::windows_map::StatusModel;
use crate::windows_map::WindowStatus;
use crate::windows_map::token_wf;
use crate::yabai::WindowModel;
use crate::yabai::YabaiWindow;

verus! {

/// The engine's decision: which cell of which grid the window is placed into.
#[derive(Debug, PartialEq, Eq, Structural)]
pub struct WindowPositionGrid {
    pub rows: u32,
    pub columns: u32,
    pub grid_x: u32,
    pub grid_y: u32,
}

/// The next cell after `(gx, gy)` in row-major order over a
/// `rows` by `columns` grid: step right; at the end of a row, wrap to the
/// start of the next row; at the last cell, wrap back to `(0, 0)`.
pub open spec fn spec_next_cell(gx: u32, gy: u32, rows: u32, columns: u32) -> (u32, u32) {
    if gx < columns - 1 {
        ((gx + 1) as u32, gy)
    } else if gy < rows - 1 {
        (0u32, (gy + 1) as u32)
    } else {
        (0u32, 0u32)
    }
}

/// Advance the prior cell one step in row-major order under the requested
/// grid shape.  On a 1x1 grid every step wraps straight back to `(0, 0)`.
pub fn calc_next_window_position_grid(prev_status: &WindowStatus, grid: &Grid) -> (next:
    WindowPositionGrid)
    requires
        grid.wf(),
    ensures
        next.rows == grid.rows,
        next.columns == grid.columns,
        (next.grid_x, next.grid_y) == spec_next_cell(
            prev_status.x_grid,
            prev_status.y_grid,
            grid.rows,
            grid.columns,
        ),
        prev_status.x_grid < grid.columns - 1 ==> next.grid_x == prev_status.x_grid + 1
            && next.grid_y == prev_status.y_grid,
        prev_status.x_grid >= grid.columns - 1 && prev_status.y_grid < grid.rows - 1
            ==> next.grid_x == 0 && next.grid_y == prev_status.y_grid + 1,
        prev_status.x_grid >= grid.columns - 1 && prev_status.y_grid >= grid.rows - 1
            ==> next.grid_x == 0 && next.grid_y == 0,
{
    let rows = grid.rows;
    let columns = grid.columns;
    let mut next_grid_x = prev_status.x_grid;
    let mut next_grid_y = prev_status.y_grid;

    if prev_status.x_grid < columns - 1 {
        next_grid_x += 1;
    } else if prev_status.y_grid < rows - 1 {
        next_grid_x = 0;
        next_grid_y += 1;
    } else {
        next_grid_x = 0;
        next_grid_y = 0;
    }

    WindowPositionGrid { rows, columns, grid_x: next_grid_x, grid_y: next_grid_y }
}

/// Whether the window is still where this tool last put it, under the same
/// grid: the prior record's position and size equal the current geometry
/// exactly, and the recorded grid shape equals the requested one.  Any
/// difference means something else moved, resized or reconfigured the
/// window since, and the stale cycle position must not be trusted.
pub open spec fn continues_cycle(prev: StatusModel, current: WindowModel, grid: Grid) -> bool {
    &&& prev.x_px == current.frame.x_px
    &&& prev.y_px == current.frame.y_px
    &&& prev.rows == grid.rows
    &&& prev.columns == grid.columns
    &&& prev.w == current.frame.w
    &&& prev.h == current.frame.h
}

/// Decide the focused window's next grid cell.  A window that is continuing
/// its cycle advances one cell in row-major order; a window with no prior
/// record, or with any detected drift, starts fresh at `(0, 0)`.
pub fn decide_next_cell(prev_status: Option<&WindowStatus>, current: &YabaiWindow, grid: &Grid)
    -> (next: WindowPositionGrid)
    requires
        grid.wf(),
    ensures
        next.rows == grid.rows,
        next.columns == grid.columns,
        match prev_status {
            Some(prev) => (next.grid_x, next.grid_y) == (if continues_cycle(
                prev@,
                current@,
                *grid,
            ) {
                spec_next_cell(prev.x_grid, prev.y_grid, grid.rows, grid.columns)
            } else {
                (0u32, 0u32)
            }),
            None => next.grid_x == 0 && next.grid_y == 0,
        },
{
    match prev_status {
        Some(prev) => {
            if prev.x_px != current.frame.x_px || prev.y_px != current.frame.y_px {
                WindowPositionGrid { rows: grid.rows, columns: grid.columns, grid_x: 0, grid_y: 0 }
            } else if prev.rows != grid.rows || prev.columns != grid.columns {
                WindowPositionGrid { rows: grid.rows, columns: grid.columns, grid_x: 0, grid_y: 0 }
            } else if prev.w != current.frame.w || prev.h != current.frame.h {
                WindowPositionGrid { rows: grid.rows, columns: grid.columns, grid_x: 0, grid_y: 0 }
            } else {
                calc_next_window_position_grid(prev, grid)
            }
        },
        None => WindowPositionGrid {
            rows: grid.rows,
            columns: grid.columns,
            grid_x: 0,
            grid_y: 0,
        },
    }
}

/// The record to persist after the move: the window's fresh geometry
/// together with the grid shape and cell it was just placed into.  `None`
/// exactly when some geometry token is unusable — not a clean float literal.
pub fn next_status_record(current: &YabaiWindow, grid: &Grid, next: &WindowPositionGrid) -> (r:
    Option<WindowStatus>)
    ensures
        match r {
            Some(ws) => ws.wf() && ws@ == (StatusModel {
                window_id: current@.id,
                x_px: current@.frame.x_px,
                y_px: current@.frame.y_px,
                x_grid: next.grid_x,
                y_grid: next.grid_y,
                w: current@.frame.w,
                h: current@.frame.h,
                rows: grid.rows,
                columns: grid.columns,
            }),
            None => !(token_wf(current@.frame.x_px) && token_wf(current@.frame.y_px) && token_wf(
                current@.frame.w,
            ) && token_wf(current@.frame.h)),
        },
{
    let ws = WindowStatus {
        window_id: current.id,
        x_px: current.frame.x_px.clone(),
        y_px: current.frame.y_px.clone(),
        x_grid: next.grid_x,
        y_grid: next.grid_y,
        w: current.frame.w.clone(),
        h: current.frame.h.clone(),
        rows: grid.rows,
        columns: grid.columns,
    };
    if ws.is_well_formed() {
        Some(ws)
    } else {
        None
    }
}

} // verus!
