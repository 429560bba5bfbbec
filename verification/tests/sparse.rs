use gol::process_frame;
use gol::sparse::neighbour_counts;
use gol::sparse::neighbour_counts_chunked;
use gol::sparse::SparseColony;
use gol::structs::Colony;

#[test]
fn sparse_blinker_oscillates() {
    let mut colony = SparseColony::new();
    colony.make_alive(1, 2);
    colony.make_alive(2, 2);
    colony.make_alive(3, 2);

    colony.step();
    let mut mid = colony.live_cells();
    mid.sort();
    assert_eq!(mid, vec![(2, 1), (2, 2), (2, 3)]);

    colony.step();
    let mut back = colony.live_cells();
    back.sort();
    assert_eq!(back, vec![(1, 2), (2, 2), (3, 2)]);
}

#[test]
fn sparse_block_is_a_fixed_point() {
    let mut colony = SparseColony::new();
    colony.make_alive(1, 1);
    colony.make_alive(1, 2);
    colony.make_alive(2, 1);
    colony.make_alive(2, 2);
    colony.step();
    let mut got = colony.live_cells();
    got.sort();
    assert_eq!(got, vec![(1, 1), (1, 2), (2, 1), (2, 2)]);
}

#[test]
fn sparse_make_alive_twice_and_dead_twice() {
    let mut colony = SparseColony::new();
    colony.make_alive(4, -7);
    colony.make_alive(4, -7);
    assert_eq!(colony.live_cells(), vec![(4, -7)]);
    assert!(colony.is_alive(4, -7));
    colony.make_dead(4, -7);
    colony.make_dead(4, -7);
    assert!(colony.live_cells().is_empty());
    assert!(!colony.is_alive(4, -7));
}

#[test]
fn sparse_clips_at_coordinate_extremes() {
    // A vertical blinker on the last representable column: the birth
    // beyond the edge is clipped, the one inside it happens.
    let mut colony = SparseColony::new();
    colony.make_alive(i64::MAX, 0);
    colony.make_alive(i64::MAX, 1);
    colony.make_alive(i64::MAX, 2);
    colony.step();
    let mut got = colony.live_cells();
    got.sort();
    assert_eq!(got, vec![(i64::MAX - 1, 1), (i64::MAX, 1)]);
}

#[test]
fn dense_and_sparse_agree_for_generations() {
    // The same seed, stepped in both representations, stays identical
    // while it keeps off the dense border.
    let seed = [(7i64, 7i64), (7, 8), (8, 7), (8, 9), (9, 8)];
    let mut dense = Colony::new(16, 16);
    let mut sparse = SparseColony::new();
    for (x, y) in seed {
        dense.make_alive(x as usize, y as usize);
        sparse.make_alive(x, y);
    }
    for _ in 0..4 {
        process_frame(&mut dense);
        sparse.step();
        let mut d: Vec<(i64, i64)> = dense
            .live_cells()
            .iter()
            .map(|&(x, y)| (x as i64, y as i64))
            .collect();
        let mut s = sparse.live_cells();
        d.sort();
        s.sort();
        assert_eq!(d, s);
    }
}

fn count_of(counts: &[((i64, i64), u8)], key: (i64, i64)) -> Option<u8> {
    counts.iter().find(|e| e.0 == key).map(|e| e.1)
}

#[test]
fn chunked_counts_match_single_pass() {
    let live = vec![
        (0i64, 0i64),
        (0, 1),
        (0, 2),
        (5, 5),
        (5, 6),
        (6, 5),
        (6, 6),
        (-3, 4),
        (-4, 4),
        (100, -100),
    ];
    let single = neighbour_counts(&live);
    for chunk in [1usize, 2, 3, 4, 7, 100] {
        let chunked = neighbour_counts_chunked(&live, chunk);
        assert_eq!(single.len(), chunked.len());
        for &(key, n) in &single {
            assert_eq!(count_of(&chunked, key), Some(n), "chunk size {chunk}");
        }
    }
}

#[test]
fn neighbour_counts_are_exact() {
    // The horizontal blinker: the centre column sees all three cells.
    let live = vec![(1i64, 2i64), (2, 2), (3, 2)];
    let counts = neighbour_counts(&live);
    assert_eq!(count_of(&counts, (2, 1)), Some(3));
    assert_eq!(count_of(&counts, (2, 3)), Some(3));
    assert_eq!(count_of(&counts, (2, 2)), Some(2));
    assert_eq!(count_of(&counts, (1, 1)), Some(2));
    assert_eq!(count_of(&counts, (0, 1)), Some(1));
    assert_eq!(count_of(&counts, (9, 9)), None);
}
