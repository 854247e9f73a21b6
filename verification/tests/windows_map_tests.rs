use yabai_grid::windows_map::{WindowStatus, WindowsMap};

fn status(
    window_id: u32,
    x: &str,
    y: &str,
    w: &str,
    h: &str,
    rows: u32,
    columns: u32,
    gx: u32,
    gy: u32,
) -> WindowStatus {
    WindowStatus {
        window_id,
        x_px: x.to_string(),
        y_px: y.to_string(),
        x_grid: gx,
        y_grid: gy,
        w: w.to_string(),
        h: h.to_string(),
        rows,
        columns,
    }
}

#[test]
fn test_windows_map_try_from() {
    let value = "1 0 0 100 100 1 1 3 3\n2 100 0 100 100 1 1 3 3\n".to_string();
    let windows_map = WindowsMap::try_from(value).unwrap();
    assert_eq!(windows_map.len(), 2);
    assert_eq!(windows_map.get(1).unwrap().x_px, "0");
    assert_eq!(windows_map.get(1).unwrap().y_px, "0");
    assert_eq!(windows_map.get(1).unwrap().w, "100");
    assert_eq!(windows_map.get(1).unwrap().h, "100");
    assert_eq!(windows_map.get(2).unwrap().x_px, "100");
    assert_eq!(windows_map.get(2).unwrap().y_px, "0");
    assert_eq!(windows_map.get(2).unwrap().w, "100");
    assert_eq!(windows_map.get(2).unwrap().h, "100");

    let windows_map = WindowsMap::from_or_empty(windows_map.serialize());
    assert_eq!(windows_map.len(), 2);
    assert_eq!(windows_map.get(1).unwrap().x_px, "0");
    assert_eq!(windows_map.get(1).unwrap().y_px, "0");
    assert_eq!(windows_map.get(1).unwrap().w, "100");
    assert_eq!(windows_map.get(1).unwrap().h, "100");
    assert_eq!(windows_map.get(2).unwrap().x_px, "100");
    assert_eq!(windows_map.get(2).unwrap().y_px, "0");
    assert_eq!(windows_map.get(2).unwrap().w, "100");
    assert_eq!(windows_map.get(2).unwrap().h, "100");

    let windows_map = WindowsMap::from_or_empty(windows_map.serialize());
    assert_eq!(windows_map.len(), 2);
    assert_eq!(windows_map.get(1).unwrap().x_px, "0");
    assert_eq!(windows_map.get(1).unwrap().y_px, "0");
    assert_eq!(windows_map.get(1).unwrap().w, "100");
    assert_eq!(windows_map.get(1).unwrap().h, "100");
    assert_eq!(windows_map.get(2).unwrap().x_px, "100");
    assert_eq!(windows_map.get(2).unwrap().y_px, "0");
    assert_eq!(windows_map.get(2).unwrap().w, "100");
    assert_eq!(windows_map.get(2).unwrap().h, "100");
}

#[test]
fn test_one_malformed_line_discards_everything() {
    // All-or-nothing recovery: the well-formed first line is dropped too.
    let value = "1 0 0 100 100 1 1 3 3\nnot a record\n".to_string();
    assert!(WindowsMap::try_from(value.clone()).is_err());
    let map = WindowsMap::from_or_empty(value);
    assert_eq!(map.len(), 0);
    assert!(map.get(1).is_none());
}

#[test]
fn test_wrong_field_count_is_malformed() {
    // Eight fields.
    let map = WindowsMap::from_or_empty("1 0 0 100 100 1 1 3\n".to_string());
    assert_eq!(map.len(), 0);
    // Ten fields.
    let map = WindowsMap::from_or_empty("1 0 0 100 100 1 1 3 3 9\n".to_string());
    assert_eq!(map.len(), 0);
}

#[test]
fn test_unparsable_fields_are_malformed() {
    let map = WindowsMap::from_or_empty("x 0 0 100 100 1 1 3 3\n".to_string());
    assert_eq!(map.len(), 0);
    let map = WindowsMap::from_or_empty("1 0 0 1.2.3 100 1 1 3 3\n".to_string());
    assert_eq!(map.len(), 0);
    let map = WindowsMap::from_or_empty("1 0 0 100 100 1 1 3 -3\n".to_string());
    assert_eq!(map.len(), 0);
    let map = WindowsMap::from_or_empty("4294967296 0 0 100 100 1 1 3 3\n".to_string());
    assert_eq!(map.len(), 0);
}

#[test]
fn test_empty_text_is_an_empty_store() {
    let map = WindowsMap::from_or_empty(String::new());
    assert_eq!(map.len(), 0);
}

#[test]
fn test_blank_lines_are_skipped() {
    let map = WindowsMap::from_or_empty("\n\n1 0 0 100 100 1 1 3 3\n\n".to_string());
    assert_eq!(map.len(), 1);
    assert_eq!(map.get(1).unwrap().w, "100");
}

#[test]
fn test_float_literal_forms_are_accepted() {
    let value = "7 -0.5 1e3 inf NaN 2 3 1 0\n".to_string();
    let map = WindowsMap::try_from(value).unwrap();
    let ws = map.get(7).unwrap();
    assert_eq!(ws.x_px, "-0.5");
    assert_eq!(ws.y_px, "1e3");
    assert_eq!(ws.w, "inf");
    assert_eq!(ws.h, "NaN");
    assert_eq!(ws.rows, 2);
    assert_eq!(ws.columns, 3);
    assert_eq!(ws.x_grid, 1);
    assert_eq!(ws.y_grid, 0);
    // The odd tokens survive a full round trip verbatim.
    let map = WindowsMap::from_or_empty(map.serialize());
    assert_eq!(map.len(), 1);
    assert_eq!(map.get(7).unwrap().y_px, "1e3");
    assert_eq!(map.get(7).unwrap().h, "NaN");
}

#[test]
fn test_crlf_line_endings_load() {
    let map = WindowsMap::from_or_empty("1 0 0 100 100 1 1 3 3\r\n".to_string());
    assert_eq!(map.len(), 1);
    assert_eq!(map.get(1).unwrap().h, "100");
}

#[test]
fn test_insert_overwrites_and_round_trips() {
    let mut map = WindowsMap::from_or_empty("1 0 0 100 100 2 3 0 0\n".to_string());
    assert_eq!(map.len(), 1);
    map.insert(1, status(1, "5", "6", "70", "80", 2, 3, 1, 1));
    assert_eq!(map.len(), 1);
    assert_eq!(map.get(1).unwrap().x_px, "5");
    map.insert(9, status(9, "0", "0", "10", "10", 2, 3, 0, 1));
    assert_eq!(map.len(), 2);

    let reloaded = WindowsMap::from_or_empty(map.serialize());
    assert_eq!(reloaded.len(), 2);
    let w1 = reloaded.get(1).unwrap();
    assert_eq!((w1.x_px.as_str(), w1.y_px.as_str()), ("5", "6"));
    assert_eq!((w1.w.as_str(), w1.h.as_str()), ("70", "80"));
    assert_eq!((w1.rows, w1.columns, w1.x_grid, w1.y_grid), (2, 3, 1, 1));
    let w9 = reloaded.get(9).unwrap();
    assert_eq!((w9.rows, w9.columns, w9.x_grid, w9.y_grid), (2, 3, 0, 1));
    assert!(reloaded.get(2).is_none());
}

#[test]
fn test_duplicate_ids_keep_the_later_record() {
    let map = WindowsMap::from_or_empty(
        "1 0 0 100 100 1 1 3 3\n1 9 9 50 50 2 2 0 1\n".to_string(),
    );
    assert_eq!(map.len(), 1);
    assert_eq!(map.get(1).unwrap().x_px, "9");
    assert_eq!(map.get(1).unwrap().y_grid, 1);
}

#[test]
fn test_is_well_formed() {
    assert!(status(1, "-0.5", "1e3", "inf", "NaN", 2, 2, 0, 0).is_well_formed());
    assert!(!status(1, "abc", "0", "0", "0", 2, 2, 0, 0).is_well_formed());
    assert!(!status(1, "1 2", "0", "0", "0", 2, 2, 0, 0).is_well_formed());
    assert!(!status(1, "", "0", "0", "0", 2, 2, 0, 0).is_well_formed());
}
