use forest_fire::forest::{Cell, Forest};

fn tree_count(f: &Forest) -> usize {
    f.count_cells(Cell::Tree)
}

#[test]
fn new_forest_is_all_empty() {
    let f = Forest::new(4, 3);
    assert_eq!(f.width, 4);
    assert_eq!(f.height, 3);
    assert_eq!(f.grid.len(), 3);
    for row in &f.grid {
        assert_eq!(row.len(), 4);
        for &c in row {
            assert_eq!(c, Cell::Empty);
        }
    }
}

#[test]
fn grow_reaches_exact_tree_count() {
    let mut f = Forest::new(5, 4);
    f.grow(50);
    // round(5*4*50/100) = 10
    assert_eq!(tree_count(&f), 10);
    for row in &f.grid {
        for &c in row {
            assert!(c == Cell::Tree || c == Cell::Empty);
        }
    }
}

#[test]
fn grow_zero_density_plants_nothing() {
    let mut f = Forest::new(10, 10);
    f.grow(0);
    assert_eq!(tree_count(&f), 0);
}

#[test]
fn grow_full_density_fills_grid() {
    let mut f = Forest::new(6, 7);
    f.grow(100);
    assert_eq!(tree_count(&f), 42);
}

#[test]
fn grow_rounds_half_up_on_single_cell() {
    let mut f = Forest::new(1, 1);
    f.grow(49);
    assert_eq!(tree_count(&f), 0);
    let mut g = Forest::new(1, 1);
    g.grow(50);
    assert_eq!(tree_count(&g), 1);
}

#[test]
fn start_fire_ignites_exactly_one_tree() {
    let mut f = Forest::new(8, 8);
    f.grow(100);
    f.start_fire();
    assert_eq!(f.count_cells(Cell::Burning), 1);
    assert_eq!(tree_count(&f), 63);
    assert!(f.has_burning_trees());
}

#[test]
fn start_fire_without_trees_changes_nothing() {
    let mut f = Forest::new(10, 10);
    f.grow(0);
    let before = f.grid.clone();
    f.start_fire();
    assert_eq!(f.grid, before);
    assert!(!f.has_burning_trees());
}

#[test]
fn spread_fire_without_burning_cells_is_a_noop() {
    let mut f = Forest::new(7, 5);
    f.grow(37);
    assert!(!f.has_burning_trees());
    let before = f.grid.clone();
    f.spread_fire();
    assert_eq!(f.grid, before);
}

#[test]
fn spread_fire_advances_one_ring_from_center() {
    let mut f = Forest::new(3, 3);
    f.grow(100);
    f.grid[1][1] = Cell::Burning;
    f.spread_fire();
    for y in 0..3 {
        for x in 0..3 {
            if x == 1 && y == 1 {
                assert_eq!(f.grid[y][x], Cell::Burned);
            } else {
                assert_eq!(f.grid[y][x], Cell::Burning);
            }
        }
    }
    f.spread_fire();
    for row in &f.grid {
        for &c in row {
            assert_eq!(c, Cell::Burned);
        }
    }
    assert!(!f.has_burning_trees());
    assert_eq!(f.burned_percentage_hundredths(), 10000);
}

#[test]
fn spread_fire_does_not_cross_an_empty_gap() {
    let mut f = Forest::new(5, 1);
    f.grid[0][0] = Cell::Burning;
    f.grid[0][1] = Cell::Tree;
    // grid[0][2] stays Empty
    f.grid[0][3] = Cell::Tree;
    f.spread_fire();
    assert_eq!(f.grid[0][0], Cell::Burned);
    assert_eq!(f.grid[0][1], Cell::Burning);
    assert_eq!(f.grid[0][2], Cell::Empty);
    assert_eq!(f.grid[0][3], Cell::Tree);
    f.spread_fire();
    assert_eq!(f.grid[0][1], Cell::Burned);
    assert_eq!(f.grid[0][3], Cell::Tree);
    assert!(!f.has_burning_trees());
}

#[test]
fn spread_fire_never_increases_tree_count() {
    let mut f = Forest::new(12, 9);
    f.grow(70);
    f.start_fire();
    let mut prev = tree_count(&f);
    let mut steps = 0;
    while f.has_burning_trees() {
        f.spread_fire();
        let now = tree_count(&f);
        assert!(now <= prev);
        prev = now;
        steps += 1;
        assert!(steps <= 12 * 9);
    }
}

#[test]
fn burned_percentage_is_zero_on_empty_grid() {
    let mut f = Forest::new(10, 10);
    f.grow(0);
    f.start_fire();
    assert!(!f.has_burning_trees());
    assert_eq!(f.burned_percentage_hundredths(), 0);
}

#[test]
fn burned_percentage_is_zero_before_any_fire() {
    let mut f = Forest::new(6, 6);
    f.grow(80);
    assert_eq!(f.burned_percentage_hundredths(), 0);
}

#[test]
fn burned_percentage_counts_only_flammable_cells() {
    let mut f = Forest::new(2, 2);
    f.grid[0][0] = Cell::Burned;
    f.grid[0][1] = Cell::Tree;
    // one of two flammable cells burned: (10000*1 + 1) / 2
    assert_eq!(f.burned_percentage_hundredths(), 5000);
}

#[test]
fn full_burn_of_full_density_reaches_one_hundred_percent() {
    let mut f = Forest::new(9, 4);
    f.grow(100);
    f.start_fire();
    while f.has_burning_trees() {
        f.spread_fire();
    }
    assert_eq!(f.burned_percentage_hundredths(), 10000);
    assert_eq!(f.count_cells(Cell::Burned), 36);
}
