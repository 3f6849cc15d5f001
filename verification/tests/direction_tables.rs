use gomoku::ai::precompute::direction_tables::DirectionTables;

#[test]
fn test_direction_tables_creation() {
    let tables = DirectionTables::new(19, 6);
    assert_eq!(tables.board_size, 19);
    assert_eq!(tables.adjacent_8.len(), 19 * 19);
}

#[test]
fn test_adjacent_center() {
    let tables = DirectionTables::new(5, 6);
    let center_idx = tables.to_index(2, 2);
    let adjacent = tables.get_adjacent(center_idx);
    assert_eq!(adjacent.len(), 8);
}

#[test]
fn test_adjacent_corner() {
    let tables = DirectionTables::new(5, 6);
    let corner_idx = tables.to_index(0, 0);
    let adjacent = tables.get_adjacent(corner_idx);
    assert_eq!(adjacent.len(), 3);
}

#[test]
fn test_rays() {
    let tables = DirectionTables::new(10, 5);
    let center_idx = tables.to_index(5, 5);
    let ray = tables.get_ray_forward(center_idx, 0);
    assert_eq!(ray.len(), 4);
    assert_eq!(tables.to_coords(ray[0]), (6, 5));
}

#[test]
fn test_capture_patterns() {
    let tables = DirectionTables::new(10, 5);
    let idx = tables.to_index(5, 5);
    let patterns = tables.get_capture_patterns(idx, 0);
    assert!(patterns.len() > 0);
}

#[test]
fn test_to_index_to_coords() {
    let tables = DirectionTables::new(19, 6);
    let idx = tables.to_index(10, 15);
    let (row, col) = tables.to_coords(idx);
    assert_eq!(row, 10);
    assert_eq!(col, 15);
}

#[test]
fn backward_rays_and_both_capture_directions() {
    let tables = DirectionTables::new(10, 5);
    let idx = tables.to_index(5, 5);
    let back = tables.get_ray_backward(idx, 0);
    assert_eq!(back.len(), 5);
    assert_eq!(tables.to_coords(back[0]), (4, 5));
    assert_eq!(tables.to_coords(back[4]), (0, 5));
    assert_eq!(tables.get_capture_patterns(idx, 0).len(), 2);
    let corner = tables.to_index(0, 0);
    assert_eq!(tables.get_capture_patterns(corner, 0).len(), 1);
    assert_eq!(tables.get_capture_patterns(corner, 3).len(), 0);
}
