use forest_fire::point::Point;

fn has(v: &Vec<Point>, x: i32, y: i32) -> bool {
    v.iter().any(|p| p.x == x && p.y == y)
}

#[test]
fn new_keeps_coordinates() {
    let p = Point::new(3, -2);
    assert_eq!(p.x, 3);
    assert_eq!(p.y, -2);
}

#[test]
fn interior_cell_has_eight_neighbors() {
    let p = Point::new(1, 1);
    let ns = p.neighbors(3, 3);
    assert_eq!(ns.len(), 8);
    for dx in -1..=1 {
        for dy in -1..=1 {
            if dx != 0 || dy != 0 {
                assert!(has(&ns, 1 + dx, 1 + dy));
            }
        }
    }
    assert!(!has(&ns, 1, 1));
}

#[test]
fn corner_cell_has_three_neighbors() {
    let p = Point::new(0, 0);
    let ns = p.neighbors(4, 4);
    assert_eq!(ns.len(), 3);
    assert!(has(&ns, 1, 0));
    assert!(has(&ns, 0, 1));
    assert!(has(&ns, 1, 1));
}

#[test]
fn edge_cell_has_five_neighbors() {
    let p = Point::new(2, 0);
    let ns = p.neighbors(5, 5);
    assert_eq!(ns.len(), 5);
    assert!(has(&ns, 1, 0));
    assert!(has(&ns, 3, 0));
    assert!(has(&ns, 1, 1));
    assert!(has(&ns, 2, 1));
    assert!(has(&ns, 3, 1));
}

#[test]
fn neighbors_contains_no_duplicates() {
    for x in 0..4 {
        for y in 0..4 {
            let ns = Point::new(x, y).neighbors(4, 4);
            for i in 0..ns.len() {
                for j in 0..ns.len() {
                    if i != j {
                        assert!(ns[i].x != ns[j].x || ns[i].y != ns[j].y);
                    }
                }
            }
            assert!(ns.len() <= 8);
        }
    }
}

#[test]
fn single_cell_grid_has_no_neighbors() {
    let p = Point::new(0, 0);
    let ns = p.neighbors(1, 1);
    assert_eq!(ns.len(), 0);
}
