use mutations::automaton::{Automaton, tore_correction};
use mutations::compiler::semantic::{parse, Rules};

fn analyze(text: &str, world: (usize, usize)) -> Rules {
    parse(text.as_bytes().to_vec(), world).unwrap()
}

#[test]
fn tore_correction_wraps_both_directions() {
    assert_eq!(tore_correction(0, 5), 0);
    assert_eq!(tore_correction(4, 5), 4);
    assert_eq!(tore_correction(5, 5), 0);
    assert_eq!(tore_correction(7, 5), 2);
    assert_eq!(tore_correction(-1, 5), 4);
    assert_eq!(tore_correction(-5, 5), 0);
    assert_eq!(tore_correction(-7, 5), 3);
}

#[test]
fn tore_correction_is_periodic() {
    for v in -20isize..20 {
        for l in 1usize..7 {
            let a = tore_correction(v, l);
            let b = tore_correction(v + l as isize, l);
            assert_eq!(a, b);
            assert!(a < l);
        }
    }
}

#[test]
fn quantity_placement_fills_exactly_the_asked_cells() {
    let text = "states {\n    (a, 0, 0, 0),\n    (b, 1, 1, 1, quantity 2),\n}\ntransitions {\n}\n";
    let rules = analyze(text, (3, 3));
    let automaton = Automaton::new(rules);
    let mut b_count = 0;
    let mut a_count = 0;
    for x in 0..3 {
        for y in 0..3 {
            match automaton.get_state(x, y) {
                0 => a_count += 1,
                1 => b_count += 1,
                _ => assert!(false),
            }
        }
    }
    assert_eq!(b_count, 2);
    assert_eq!(a_count, 7);
    assert_eq!(automaton.get_colors(), vec![(0, 0, 0), (1, 1, 1)]);
}

#[test]
fn quantity_condition_counts_the_eight_toroidal_neighbors() {
    // A single live cell in the center of a 3x3 torus: every other cell
    // sees exactly one live neighbor and lights up; the center counts its
    // neighbors without itself, sees zero, and stays as it is.
    let mut rules = analyze(
        "states {\n    (off, 0, 0, 0),\n    (on, 1, 1, 1, quantity 0),\n}\ntransitions {\n    (off, on, on == 1),\n}\n",
        (3, 3),
    );
    // Pin the live cell deterministically through a box distribution.
    rules.states[1].distribution = mutations::compiler::semantic::StateDistribution::Box(1, 1, 1, 1);
    let mut automaton = Automaton::new(rules);
    assert_eq!(automaton.get_state(1, 1), 1);
    automaton.tick();
    for x in 0..3 {
        for y in 0..3 {
            assert_eq!(automaton.get_state(x, y), 1, "cell ({}, {})", x, y);
        }
    }
}

#[test]
fn random_certainty_and_impossibility_are_exact() {
    let text = "states {\n    (a, 0, 0, 0),\n    (b, 1, 1, 1, quantity 0),\n    (c, 2, 2, 2, quantity 0),\n}\ntransitions {\n    (a, b, random 1.0),\n    (b, c, random 0.0),\n}\n";
    let rules = analyze(text, (4, 4));
    let mut automaton = Automaton::new(rules);
    automaton.tick();
    for x in 0..4 {
        for y in 0..4 {
            assert_eq!(automaton.get_state(x, y), 1);
        }
    }
    automaton.tick();
    for x in 0..4 {
        for y in 0..4 {
            assert_eq!(automaton.get_state(x, y), 1);
        }
    }
}

#[test]
fn delayed_transition_slides_through_synthetic_states() {
    // With delay 3 and an always-true condition, a cell leaves its origin
    // and reaches the destination exactly three ticks later, showing the
    // origin's color meanwhile.
    let text = "states {\n    (start, 9, 9, 9),\n    (end, 5, 5, 5, quantity 0),\n}\ntransitions {\n    (start, end, delay, 3, true),\n}\n";
    let rules = analyze(text, (2, 2));
    let mut automaton = Automaton::new(rules);
    assert_eq!(automaton.get_state(0, 0), 0);
    automaton.tick();
    assert_eq!(automaton.get_state(0, 0), 2);
    automaton.tick();
    assert_eq!(automaton.get_state(0, 0), 3);
    automaton.tick();
    assert_eq!(automaton.get_state(0, 0), 1);
    let colors = automaton.get_colors();
    assert_eq!(colors.len(), 4);
    assert_eq!(colors[2], (9, 9, 9));
    assert_eq!(colors[3], (9, 9, 9));
}

#[test]
fn neighbor_condition_reads_the_named_cell() {
    // E is the neighbor directly to the right; with a live column at x=1,
    // only the cells at x=0 see a live E neighbor.
    let mut rules = analyze(
        "states {\n    (off, 0, 0, 0),\n    (on, 1, 1, 1, quantity 0),\n    (lit, 2, 2, 2, quantity 0),\n}\ntransitions {\n    (off, lit, E is on),\n}\n",
        (3, 3),
    );
    rules.states[1].distribution = mutations::compiler::semantic::StateDistribution::Box(1, 0, 1, 3);
    let mut automaton = Automaton::new(rules);
    automaton.tick();
    for y in 0..3 {
        assert_eq!(automaton.get_state(0, y), 2);
        assert_eq!(automaton.get_state(1, y), 1);
        assert_eq!(automaton.get_state(2, y), 0);
    }
}
