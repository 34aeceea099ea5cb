//! Memory eroding with motion, deterministically.

use slavia_core::esm::decay::{retained_instructions, Rng};

fn errands() -> Vec<String> {
    [
        "fetch water",
        "mind the goat",
        "greet the miller",
        "bar the door",
        "wait for me",
    ]
    .iter()
    .map(|s| s.to_string())
    .collect()
}

#[test]
fn standing_still_forgets_nothing() {
    let mut rng = Rng::seeded(1);
    assert_eq!(retained_instructions(0, &errands(), &mut rng), errands());
}

#[test]
fn an_empty_errand_list_stays_empty() {
    let mut rng = Rng::seeded(1);
    assert!(retained_instructions(99, &[], &mut rng).is_empty());
}

/// If this ever fails, determinism has been broken somewhere.
#[test]
fn the_same_seed_remembers_the_same_things() {
    for seed in 0..50 {
        let mut a = Rng::seeded(seed);
        let mut b = Rng::seeded(seed);
        assert_eq!(
            retained_instructions(20, &errands(), &mut a),
            retained_instructions(20, &errands(), &mut b),
            "seed {seed} must replay identically"
        );
    }
}

#[test]
fn the_first_instruction_always_survives_however_far_we_walk() {
    for seed in 0..100 {
        let mut rng = Rng::seeded(seed);
        let kept = retained_instructions(1_000, &errands(), &mut rng);
        assert_eq!(kept.first().map(String::as_str), Some("fetch water"));
    }
}

#[test]
fn what_survives_stays_in_order() {
    for seed in 0..100 {
        let mut rng = Rng::seeded(seed);
        let kept = retained_instructions(30, &errands(), &mut rng);
        let full = errands();
        // Every retained item appears in the original order.
        let positions: Vec<usize> = kept
            .iter()
            .map(|k| full.iter().position(|f| f == k).unwrap())
            .collect();
        let mut sorted = positions.clone();
        sorted.sort_unstable();
        assert_eq!(positions, sorted, "order must be preserved (seed {seed})");
    }
}

/// Statistical rather than per-seed, so it cannot flake.
#[test]
fn walking_further_erodes_more() {
    let total = |steps: u32| -> usize {
        (0..200)
            .map(|seed| {
                let mut rng = Rng::seeded(seed);
                retained_instructions(steps, &errands(), &mut rng).len()
            })
            .sum()
    };
    assert!(
        total(1) > total(50),
        "a long walk must cost more memory than a short one"
    );
}
