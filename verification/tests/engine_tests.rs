use yabai_grid::engine::{calc_next_window_position_grid, decide_next_cell, next_status_record,
    WindowPositionGrid};
use yabai_grid::grid::Grid;
use yabai_grid::windows_map::WindowStatus;
use yabai_grid::yabai::{YabaiWindow, YabaiWindowFrame};

fn prev(x: &str, y: &str, w: &str, h: &str, rows: u32, columns: u32, gx: u32, gy: u32)
    -> WindowStatus {
    WindowStatus {
        window_id: 1,
        x_px: x.to_string(),
        y_px: y.to_string(),
        x_grid: gx,
        y_grid: gy,
        w: w.to_string(),
        h: h.to_string(),
        rows,
        columns,
    }
}

fn window(id: u32, x: &str, y: &str, w: &str, h: &str) -> YabaiWindow {
    YabaiWindow {
        id,
        frame: YabaiWindowFrame {
            x_px: x.to_string(),
            y_px: y.to_string(),
            w: w.to_string(),
            h: h.to_string(),
        },
        has_focus: true,
    }
}

#[test]
fn test_calc_next_window_position_grid() {
    let prev_status = prev("0", "0", "100", "100", 3, 2, 0, 0);
    let grid = Grid { rows: 3, columns: 2 };
    assert_eq!(
        calc_next_window_position_grid(&prev_status, &grid),
        WindowPositionGrid { rows: 3, columns: 2, grid_x: 1, grid_y: 0 }
    );

    let prev_status = prev("0", "0", "100", "100", 3, 2, 1, 0);
    let grid = Grid { rows: 3, columns: 2 };
    assert_eq!(
        calc_next_window_position_grid(&prev_status, &grid),
        WindowPositionGrid { rows: 3, columns: 2, grid_x: 0, grid_y: 1 }
    );
}

#[test]
fn test_fresh_start_without_prior_record() {
    let grid = Grid { rows: 4, columns: 5 };
    let cur = window(1, "12.5", "0", "100", "200");
    let next = decide_next_cell(None, &cur, &grid);
    assert_eq!(next, WindowPositionGrid { rows: 4, columns: 5, grid_x: 0, grid_y: 0 });
}

#[test]
fn test_matching_record_advances_row_major() {
    let grid = Grid { rows: 3, columns: 2 };
    let cur = window(1, "0", "0", "100", "100");
    // Advance within a row.
    let next = decide_next_cell(Some(&prev("0", "0", "100", "100", 3, 2, 0, 0)), &cur, &grid);
    assert_eq!(next, WindowPositionGrid { rows: 3, columns: 2, grid_x: 1, grid_y: 0 });
    // Wrap to the next row.
    let next = decide_next_cell(Some(&prev("0", "0", "100", "100", 3, 2, 1, 0)), &cur, &grid);
    assert_eq!(next, WindowPositionGrid { rows: 3, columns: 2, grid_x: 0, grid_y: 1 });
    // Wrap from the last cell back to the start.
    let next = decide_next_cell(Some(&prev("0", "0", "100", "100", 3, 2, 1, 2)), &cur, &grid);
    assert_eq!(next, WindowPositionGrid { rows: 3, columns: 2, grid_x: 0, grid_y: 0 });
}

#[test]
fn test_any_drift_resets_to_origin() {
    let grid = Grid { rows: 3, columns: 2 };
    let reset = WindowPositionGrid { rows: 3, columns: 2, grid_x: 0, grid_y: 0 };
    // The window moved since it was last placed.
    let cur = window(1, "50", "0", "100", "100");
    let next = decide_next_cell(Some(&prev("0", "0", "100", "100", 3, 2, 1, 0)), &cur, &grid);
    assert_eq!(next, reset);
    // Moved vertically.
    let cur = window(1, "0", "1", "100", "100");
    let next = decide_next_cell(Some(&prev("0", "0", "100", "100", 3, 2, 1, 0)), &cur, &grid);
    assert_eq!(next, reset);
    // Resized in width.
    let cur = window(1, "0", "0", "99", "100");
    let next = decide_next_cell(Some(&prev("0", "0", "100", "100", 3, 2, 1, 0)), &cur, &grid);
    assert_eq!(next, reset);
    // Resized in height.
    let cur = window(1, "0", "0", "100", "101");
    let next = decide_next_cell(Some(&prev("0", "0", "100", "100", 3, 2, 1, 0)), &cur, &grid);
    assert_eq!(next, reset);
    // A different grid shape was requested.
    let cur = window(1, "0", "0", "100", "100");
    let next = decide_next_cell(Some(&prev("0", "0", "100", "100", 2, 2, 1, 0)), &cur, &grid);
    assert_eq!(next, reset);
    let next = decide_next_cell(Some(&prev("0", "0", "100", "100", 3, 3, 1, 0)), &cur, &grid);
    assert_eq!(next, reset);
}

#[test]
fn test_one_by_one_grid_always_resets() {
    let grid = Grid { rows: 1, columns: 1 };
    let cur = window(1, "0", "0", "100", "100");
    let next = decide_next_cell(Some(&prev("0", "0", "100", "100", 1, 1, 0, 0)), &cur, &grid);
    assert_eq!(next, WindowPositionGrid { rows: 1, columns: 1, grid_x: 0, grid_y: 0 });
}

#[test]
fn test_next_status_record_captures_fresh_geometry() {
    let grid = Grid { rows: 3, columns: 2 };
    let cur = window(42, "20", "60", "833", "1360");
    let cell = WindowPositionGrid { rows: 3, columns: 2, grid_x: 1, grid_y: 0 };
    let ws = next_status_record(&cur, &grid, &cell).unwrap();
    assert_eq!(ws.window_id, 42);
    assert_eq!(ws.x_px, "20");
    assert_eq!(ws.y_px, "60");
    assert_eq!(ws.w, "833");
    assert_eq!(ws.h, "1360");
    assert_eq!((ws.rows, ws.columns, ws.x_grid, ws.y_grid), (3, 2, 1, 0));

    let bad = window(42, "not a number", "60", "833", "1360");
    assert!(next_status_record(&bad, &grid, &cell).is_none());
}
