use gol::initialise;
use gol::initialise_with_cells;
use gol::process_frame;
use gol::structs::Colony;

#[test]
fn blinks() {
    let mut starter = Colony::new(5, 5);
    starter.make_alive(1, 2);
    starter.make_alive(2, 2);
    starter.make_alive(3, 2);
    println!("{starter:?}");

    // Easiest way to build the expected next generation: walk through
    // the flips the rule makes.
    let mut want = starter.clone();
    want.make_dead(1, 2);
    want.make_dead(3, 2);
    want.make_alive(2, 1);
    want.make_alive(2, 3);

    let mut got = starter.clone();
    process_frame(&mut got);
    println!("Want:\n{want:?}");
    println!("Got:\n{got:?}");
    assert_eq!(got, want);
}

#[test]
fn still() {
    let mut want = Colony::new(5, 5);
    want.make_alive(1, 1);
    want.make_alive(1, 2);
    want.make_alive(2, 1);
    want.make_alive(2, 2);

    let mut got = want.clone();
    process_frame(&mut got);
    println!("Want:\n{want:?}");
    println!("Got:\n{got:?}");
    assert_eq!(got, want);
}

#[test]
fn blinker_returns_after_two_steps() {
    // One step turns the horizontal blinker vertical; the second brings
    // the original three cells back.
    let mut colony = Colony::new(5, 5);
    colony.make_alive(1, 2);
    colony.make_alive(2, 2);
    colony.make_alive(3, 2);

    process_frame(&mut colony);
    let mut mid = colony.live_cells();
    mid.sort();
    assert_eq!(mid, vec![(2, 1), (2, 2), (2, 3)]);

    process_frame(&mut colony);
    let mut back = colony.live_cells();
    back.sort();
    assert_eq!(back, vec![(1, 2), (2, 2), (3, 2)]);
}

#[test]
fn lonely_cell_dies_and_empty_grid_stays_empty() {
    let mut colony = Colony::new(4, 4);
    colony.make_alive(2, 2);
    process_frame(&mut colony);
    assert!(colony.live_cells().is_empty());
    process_frame(&mut colony);
    assert!(colony.live_cells().is_empty());
}

#[test]
fn initialise_with_cells_builds_exactly_the_list() {
    // The deterministic initialiser: the result is the colony the same
    // make_alive calls build, and a repeated pair collapses.
    let cells = vec![(1usize, 2usize), (2, 2), (3, 2), (2, 2)];
    let colony = initialise_with_cells(5, 5, &cells);
    let mut want = Colony::new(5, 5);
    for &(x, y) in &cells {
        want.make_alive(x, y);
    }
    assert_eq!(colony, want);
    assert_eq!(colony.live_cells(), vec![(1, 2), (2, 2), (3, 2)]);
}

#[test]
fn live_cells_come_in_scan_order() {
    let mut colony = Colony::new(4, 4);
    colony.make_alive(3, 0);
    colony.make_alive(0, 2);
    colony.make_alive(0, 1);
    colony.make_alive(2, 3);
    assert_eq!(colony.live_cells(), vec![(0, 1), (0, 2), (2, 3), (3, 0)]);
}

#[test]
fn initialise_seeds_at_least_one_cell() {
    let colony = initialise(1, 3, 3);
    assert_eq!(colony.live_cells().len(), 1);
    let empty = initialise(0, 3, 3);
    assert!(empty.live_cells().is_empty());
}

#[test]
fn initialise_stays_on_the_grid() {
    let colony = initialise(10, 6, 5);
    assert_eq!(colony.cells.len(), 6);
    for row in &colony.cells {
        assert_eq!(row.len(), 5);
    }
    let cells = colony.live_cells();
    assert!(cells.len() <= 10);
    for (x, y) in cells {
        assert!(x < 6 && y < 5);
    }
}
