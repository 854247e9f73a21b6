use yabai_grid::grid::Grid;

#[test]
fn test_grid_try_from() {
    assert_eq!(Grid::try_from("3x2".to_string()), Ok(Grid { rows: 3, columns: 2 }));
    assert_eq!(Grid::try_from("32x12".to_string()), Ok(Grid { rows: 32, columns: 12 }));

    assert!(Grid::try_from("0b11x0b10".to_string()).is_err());
    assert!(Grid::try_from("not a grid".to_string()).is_err());
    assert!(Grid::try_from("3x3a".to_string()).is_err());
    assert!(Grid::try_from("0xa".to_string()).is_err());
}

#[test]
fn test_grid_try_from_rejects_empty_parts() {
    assert!(Grid::try_from(String::new()).is_err());
    assert!(Grid::try_from("3x".to_string()).is_err());
    assert!(Grid::try_from("x3".to_string()).is_err());
    assert!(Grid::try_from("3".to_string()).is_err());
}

#[test]
fn test_grid_try_from_rejects_zero_dimensions() {
    assert!(Grid::try_from("0x3".to_string()).is_err());
    assert!(Grid::try_from("3x0".to_string()).is_err());
    assert!(Grid::try_from("0x0".to_string()).is_err());
}

#[test]
fn test_grid_try_from_ignores_text_after_second_x() {
    assert_eq!(Grid::try_from("2x3x9".to_string()), Ok(Grid { rows: 2, columns: 3 }));
    assert_eq!(Grid::try_from("2x3xjunk".to_string()), Ok(Grid { rows: 2, columns: 3 }));
}

#[test]
fn test_grid_try_from_number_limits() {
    assert_eq!(
        Grid::try_from("4294967295x2".to_string()),
        Ok(Grid { rows: 4294967295, columns: 2 })
    );
    assert!(Grid::try_from("4294967296x2".to_string()).is_err());
    assert_eq!(Grid::try_from("+3x+2".to_string()), Ok(Grid { rows: 3, columns: 2 }));
    assert!(Grid::try_from("-3x2".to_string()).is_err());
}
