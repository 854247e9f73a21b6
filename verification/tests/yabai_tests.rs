use yabai_grid::yabai::{find_focused, grid_command_argument, YabaiWindow, YabaiWindowFrame};

fn window(id: u32, x: &str, y: &str, w: &str, h: &str, has_focus: bool) -> YabaiWindow {
    YabaiWindow {
        id,
        frame: YabaiWindowFrame {
            x_px: x.to_string(),
            y_px: y.to_string(),
            w: w.to_string(),
            h: h.to_string(),
        },
        has_focus,
    }
}

#[test]
fn test_find_focused_picks_the_focused_window() {
    let windows = vec![
        window(19457, "20", "60", "833", "1360", true),
        window(16013, "873", "60", "1667", "1360", false),
        window(17220, "20", "60", "833", "1360", false),
    ];
    let result = find_focused(windows).unwrap();
    assert_eq!(result.id, 19457);
    assert_eq!(result.frame.x_px, "20");
    assert_eq!(result.frame.y_px, "60");
    assert_eq!(result.frame.w, "833");
    assert_eq!(result.frame.h, "1360");
}

#[test]
fn test_find_focused_takes_the_first_of_several() {
    let windows = vec![
        window(1, "0", "0", "1", "1", false),
        window(2, "0", "0", "1", "1", true),
        window(3, "0", "0", "1", "1", true),
    ];
    assert_eq!(find_focused(windows).unwrap().id, 2);
}

#[test]
fn test_find_focused_none_when_nothing_has_focus() {
    let windows = vec![
        window(1, "0", "0", "1", "1", false),
        window(2, "0", "0", "1", "1", false),
    ];
    assert!(find_focused(windows).is_none());
    assert!(find_focused(Vec::new()).is_none());
}

#[test]
fn test_grid_command_argument_format() {
    assert_eq!(grid_command_argument(8, 8, 2, 1), "8:8:2:1:1:1");
    assert_eq!(grid_command_argument(3, 2, 1, 0), "3:2:1:0:1:1");
    assert_eq!(grid_command_argument(1, 1, 0, 0), "1:1:0:0:1:1");
}
