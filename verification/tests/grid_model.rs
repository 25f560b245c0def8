use number8::{Grid, GridMessage};

#[test]
fn default_grid_is_three_by_three_zeroes() {
    let g = Grid::default();
    assert_eq!(g.counter_value, 0);
    assert_eq!(g.grid_values.len(), 3);
    for row in &g.grid_values {
        assert_eq!(row.len(), 3);
        for &v in row {
            assert_eq!(v, 0);
        }
    }
}

#[test]
fn update_moves_the_counter_by_one() {
    let mut g = Grid::default();
    g.update(GridMessage::Increment);
    assert_eq!(g.counter_value, 1);
    g.update(GridMessage::Decrement);
    g.update(GridMessage::Decrement);
    assert_eq!(g.counter_value, -1);
    assert_eq!(g.grid_values.len(), 3);
}
