use gol::structs::Colony;

#[test]
fn make_alive_on_small() {
    let mut colony = Colony::new(3, 3);
    colony.make_alive(1, 1);
    println!("Checking aliveness");
    // Check aliveness
    println!("{colony:?}");
    for x in 0..colony.cells.len() {
        for y in 0..colony.cells[x].len() {
            if x == 1 && y == 1 {
                assert!(colony.cells[x][y].alive());
            } else {
                assert!(!colony.cells[x][y].alive());
            };
        }
    }
    // Check counts
    println!("Checking counts");
    for x in 0..colony.cells.len() {
        for y in 0..colony.cells[x].len() {
            if x == 1 && y == 1 {
                assert_eq!(colony.cells[x][y].neighbours(), 0);
            } else {
                assert_eq!(colony.cells[x][y].neighbours(), 1);
            };
        }
    }
}

#[test]
fn test_kill_on_small() {
    let mut colony = Colony::new(3, 3);
    colony.make_alive(1, 1);
    colony.make_dead(1, 1);
    println!("{colony:?}");
    println!("Checking dead");
    // Check nothing lives
    for x in 0..colony.cells.len() {
        for y in 0..colony.cells[x].len() {
            println!("{x},{y}");
            assert!(!colony.cells[x][y].alive())
        }
    }
    println!("Checking zero neighbours");
    for x in 0..colony.cells.len() {
        for y in 0..colony.cells[x].len() {
            println!("{x},{y}");
            assert_eq!(colony.cells[x][y].neighbours(), 0)
        }
    }
}

#[test]
fn make_alive_on_small_edge() {
    let mut colony = Colony::new(3, 3);
    colony.make_alive(0, 0);
    println!("{colony:?}");
    println!("Checking aliveness");
    // Check aliveness
    for x in 0..colony.cells.len() {
        for y in 0..colony.cells[x].len() {
            println!("{x},{y}");
            if x == 0 && y == 0 {
                assert!(colony.cells[x][y].alive());
            } else {
                assert!(!colony.cells[x][y].alive());
            };
        }
    }
    // Check counts
    println!("Checking counts");
    for x in 0..colony.cells.len() {
        for y in 0..colony.cells[x].len() {
            println!("{x},{y}");
            if (x == 0 && y == 0) || x == 2 || y == 2 {
                assert_eq!(colony.cells[x][y].neighbours(), 0);
            } else {
                assert_eq!(colony.cells[x][y].neighbours(), 1);
            };
        }
    }
}

#[test]
fn test_kill_on_small_edge() {
    let mut colony = Colony::new(3, 3);
    colony.make_alive(0, 0);
    colony.make_dead(0, 0);
    // Check nothing lives
    for x in 0..colony.cells.len() {
        for y in 0..colony.cells[x].len() {
            println!("{x},{y}");
            assert!(!colony.cells[x][y].alive())
        }
    }
    for x in 0..colony.cells.len() {
        for y in 0..colony.cells[x].len() {
            println!("{x},{y}");
            assert_eq!(colony.cells[x][y].neighbours(), 0)
        }
    }
}

#[test]
fn make_alive_on_larger() {
    let mut colony = Colony::new(30, 30);
    colony.make_alive(14, 14);
    // Check aliveness
    for x in 0..colony.cells.len() {
        for y in 0..colony.cells[x].len() {
            println!("{x},{y}");
            if x == 14 && y == 14 {
                assert!(colony.cells[x][y].alive());
            } else {
                assert!(!colony.cells[x][y].alive());
            };
        }
    }
    // Check counts
    for x in 0..colony.cells.len() {
        for y in 0..colony.cells[x].len() {
            println!("{x},{y}");
            if x >= 13 && x <= 15 && y >= 13 && y <= 15 {
                if x == 14 && y == 14 {
                    assert_eq!(colony.cells[x][y].neighbours(), 0);
                } else {
                    assert_eq!(colony.cells[x][y].neighbours(), 1);
                };
            } else {
                assert_eq!(colony.cells[x][y].neighbours(), 0);
            };
        }
    }
}

#[test]
fn test_kill_on_larger() {
    let mut colony = Colony::new(30, 30);
    colony.make_alive(14, 14);
    colony.make_dead(14, 14);
    // Check nothing lives
    for x in 0..colony.cells.len() {
        for y in 0..colony.cells[x].len() {
            println!("{x},{y}");
            assert!(!colony.cells[x][y].alive())
        }
    }
    for x in 0..colony.cells.len() {
        for y in 0..colony.cells[x].len() {
            println!("{x},{y}");
            assert_eq!(colony.cells[x][y].neighbours(), 0)
        }
    }
}

#[test]
fn make_alive_twice_on_small() {
    let mut colony = Colony::new(3, 3);
    colony.make_alive(1, 1);
    colony.make_alive(1, 1);
    println!("{colony:?}");
    println!("Checking aliveness");
    // Check aliveness
    for x in 0..colony.cells.len() {
        for y in 0..colony.cells[x].len() {
            println!("{x},{y}");
            if x == 1 && y == 1 {
                assert!(colony.cells[x][y].alive());
            } else {
                assert!(!colony.cells[x][y].alive());
            };
        }
    }
    // Check counts
    println!("Checking counts");
    for x in 0..colony.cells.len() {
        for y in 0..colony.cells[x].len() {
            println!("{x},{y}");
            if x == 1 && y == 1 {
                assert_eq!(colony.cells[x][y].neighbours(), 0);
            } else {
                assert_eq!(colony.cells[x][y].neighbours(), 1);
            };
        }
    }
}

#[test]
fn make_dead_twice_on_small() {
    let mut colony = Colony::new(3, 3);
    colony.make_alive(1, 1);
    colony.make_dead(1, 1);
    colony.make_dead(1, 1);
    println!("{colony:?}");
    println!("Checking aliveness");
    // Check aliveness
    for x in 0..colony.cells.len() {
        for y in 0..colony.cells[x].len() {
            assert!(!colony.cells[x][y].alive());
        }
    }
    // Check counts
    println!("Checking counts");
    for x in 0..colony.cells.len() {
        for y in 0..colony.cells[x].len() {
            assert_eq!(colony.cells[x][y].neighbours(), 0);
        }
    }
}

#[test]
fn edge_cell_has_three_valid_neighbours() {
    // A corner cell has exactly three grid neighbours, not eight: making
    // it alive raises exactly three counts, and killing it clears them.
    let mut colony = Colony::new(3, 3);
    colony.make_alive(0, 0);
    let mut raised: u32 = 0;
    for x in 0..3 {
        for y in 0..3 {
            raised += u32::from(colony.cells[x][y].neighbours());
        }
    }
    assert_eq!(raised, 3);
    colony.make_dead(0, 0);
    for x in 0..3 {
        for y in 0..3 {
            assert_eq!(colony.cells[x][y].neighbours(), 0);
        }
    }
}
