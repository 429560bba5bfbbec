use gol::decay::DecayOverlay;
use gol::decay::LIFE_MAX;
use gol::decay::LIFE_STEP;
use gol::engine::step_with_decay;
use gol::structs::Colony;

#[test]
fn refresh_sets_the_maximum_and_reduce_floors_at_zero() {
    let mut overlay = DecayOverlay::new(2, 2);
    assert_eq!(overlay.life_left(0, 0), 0);
    overlay.refresh(0, 0);
    assert_eq!(overlay.life_left(0, 0), LIFE_MAX);
    assert_eq!(overlay.life_left(1, 1), 0);
    for _ in 0..100 {
        overlay.reduce_life(0, 0);
    }
    assert_eq!(overlay.life_left(0, 0), 0);
}

#[test]
fn reduce_life_steps_down() {
    let mut overlay = DecayOverlay::new(3, 3);
    overlay.refresh(2, 1);
    overlay.reduce_life(2, 1);
    assert_eq!(overlay.life_left(2, 1), LIFE_MAX - LIFE_STEP);
    overlay.reduce_life(2, 1);
    assert_eq!(overlay.life_left(2, 1), LIFE_MAX - 2 * LIFE_STEP);
}

#[test]
fn shine_sets_live_cells_and_fade_spares_them() {
    let mut colony = Colony::new(4, 4);
    let mut overlay = DecayOverlay::new(4, 4);
    colony.make_alive(1, 1);
    overlay.shine_alive(&colony);
    assert_eq!(overlay.life_left(1, 1), LIFE_MAX);
    assert_eq!(overlay.life_left(0, 0), 0);
    overlay.fade_dead(&colony);
    assert_eq!(overlay.life_left(1, 1), LIFE_MAX);
    assert_eq!(overlay.life_left(0, 0), 0);
    colony.make_dead(1, 1);
    overlay.fade_dead(&colony);
    assert_eq!(overlay.life_left(1, 1), LIFE_MAX - LIFE_STEP);
}

#[test]
fn decayed_step_fades_one_generation_behind() {
    // A lonely cell dies on the first step.  It was alive when the step
    // began, so its brightness survives that step and fades afterwards.
    let mut colony = Colony::new(4, 4);
    let mut overlay = DecayOverlay::new(4, 4);
    colony.make_alive(1, 1);
    overlay.shine_alive(&colony);
    step_with_decay(&mut colony, &mut overlay);
    assert!(colony.live_cells().is_empty());
    assert_eq!(overlay.life_left(1, 1), LIFE_MAX);
    step_with_decay(&mut colony, &mut overlay);
    assert_eq!(overlay.life_left(1, 1), LIFE_MAX - LIFE_STEP);
    step_with_decay(&mut colony, &mut overlay);
    assert_eq!(overlay.life_left(1, 1), LIFE_MAX - 2 * LIFE_STEP);
    assert_eq!(overlay.life_left(0, 0), 0);
}

#[test]
fn decayed_step_keeps_a_still_life_bright() {
    let mut colony = Colony::new(5, 5);
    let mut overlay = DecayOverlay::new(5, 5);
    for (x, y) in [(1, 1), (1, 2), (2, 1), (2, 2)] {
        colony.make_alive(x, y);
    }
    overlay.shine_alive(&colony);
    for _ in 0..3 {
        step_with_decay(&mut colony, &mut overlay);
        for (x, y) in [(1, 1), (1, 2), (2, 1), (2, 2)] {
            assert_eq!(overlay.life_left(x, y), LIFE_MAX);
        }
        assert_eq!(overlay.life_left(4, 4), 0);
    }
}
