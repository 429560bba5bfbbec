use gol::structs::Colony;

/// Recomputes every neighbour count from the live cells alone and holds
/// the colony's cached counts to it.
fn brute_check(colony: &Colony) {
    let w = colony.cells.len();
    let h = colony.cells[0].len();
    for x in 0..w {
        for y in 0..h {
            let mut n: u8 = 0;
            for dx in -1i64..=1 {
                for dy in -1i64..=1 {
                    if dx == 0 && dy == 0 {
                        continue;
                    }
                    let a = x as i64 + dx;
                    let b = y as i64 + dy;
                    if a >= 0
                        && b >= 0
                        && (a as usize) < w
                        && (b as usize) < h
                        && colony.cells[a as usize][b as usize].alive()
                    {
                        n += 1;
                    }
                }
            }
            assert_eq!(colony.cells[x][y].neighbours(), n, "at {x},{y}");
        }
    }
}

#[test]
fn counts_match_brute_force_after_arbitrary_flips() {
    let mut colony = Colony::new(6, 7);
    let mut seed: u64 = 12345;
    for _ in 0..200 {
        seed = seed
            .wrapping_mul(6364136223846793005)
            .wrapping_add(1442695040888963407);
        let x = ((seed >> 33) % 6) as usize;
        let y = ((seed >> 17) % 7) as usize;
        if seed % 2 == 0 {
            colony.make_alive(x, y);
        } else {
            colony.make_dead(x, y);
        }
        brute_check(&colony);
    }
}
