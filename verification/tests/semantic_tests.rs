use mutations::compiler::semantic::{parse, StateDistribution};

static WORLD: (usize, usize) = (10, 10);

static BENCHMARK: &str = "states {\n    (alive, 0, 255, 0, quantity 20),\n    (sick, 100, 100, 0, proportion 0.25),\n    (dead, 0, 0, 0),\n}\ntransitions {\n    (alive, sick, alive > 4 || B is dead && random 0.25),\n    (sick, dead, delay, 3, true),\n    (dead, alive, alive == 3),\n}\n";

fn analyze(text: &str, world: (usize, usize)) -> Result<mutations::compiler::semantic::Rules, Vec<String>> {
    parse(text.as_bytes().to_vec(), world)
}

#[test]
fn semantic_parse_benchmark_succeeds() {
    match analyze(BENCHMARK, WORLD) {
        Ok(_) => assert!(true),
        _ => assert!(false),
    }
}

#[test]
fn parse_condition_undefined_state_fails() {
    let text = "states {\n    (alive, 0, 255, 0),\n    (dead, 0, 0, 0, quantity 10),\n}\ntransitions {\n    (alive, dead, happy > 2),\n}\n";
    match analyze(text, WORLD) {
        Err(errors) => {
            assert_eq!(errors.len(), 1);
            assert_eq!(errors[0], "A condition refers to the state \"happy\", but it's not defined.");
        },
        _ => assert!(false),
    }
}

#[test]
fn parse_no_states_fails() {
    let text = "states {\n}\ntransitions {\n}\n";
    match analyze(text, WORLD) {
        Err(errors) => {
            assert_eq!(errors.len(), 2);
            assert_eq!(errors[0], "You should specify at least one state.");
            assert_eq!(errors[1], "There must be exactly one default state (without a distribution specified), but there are currently 0 of such states.");
        },
        _ => assert!(false),
    }
}

#[test]
fn parse_quantities_too_much_fails() {
    let text = "states {\n    (alive, 0, 255, 0),\n    (sick, 1, 1, 1, quantity 25),\n    (dead, 0, 0, 0, quantity 30),\n}\ntransitions {\n}\n";
    match analyze(text, (10, 5)) {
        Err(errors) => {
            assert_eq!(errors.len(), 1);
            assert_eq!(errors[0], "The sum of state's quantities is 55, but the world cannot hold that, its size is only 10 * 5 = 50.");
        },
        _ => assert!(false),
    }
}

#[test]
fn parse_several_errors_fails() {
    let text = "states {\n    (foo, 0, 0, 0),\n}\ntransitions {\n    (alive, dead, true && alive > 2),\n    (dead, alive, alive < 2 || B is dead && C is alive),\n}\n";
    match analyze(text, WORLD) {
        Err(errors) => {
            assert_eq!(errors.len(), 9);
            assert_eq!(errors[0], "The transition 'alive -> dead' refers to the state \"alive\", but it's not defined.");
            assert_eq!(errors[1], "The transition 'alive -> dead' refers to the state \"dead\", but it's not defined.");
            assert_eq!(errors[2], "The \"true\" condition should not be alone, not combined with other conditions.");
            assert_eq!(errors[3], "A condition refers to the state \"alive\", but it's not defined.");
            assert_eq!(errors[4], "The transition 'dead -> alive' refers to the state \"dead\", but it's not defined.");
            assert_eq!(errors[5], "The transition 'dead -> alive' refers to the state \"alive\", but it's not defined.");
            assert_eq!(errors[6], "A condition refers to the state \"alive\", but it's not defined.");
            assert_eq!(errors[7], "A condition refers to the state \"dead\", but it's not defined.");
            assert_eq!(errors[8], "A condition refers to the state \"alive\", but it's not defined.");
        },
        _ => assert!(false),
    }
}

#[test]
fn parse_transition_undefined_state_fails() {
    let text = "states {\n    (alive, 0, 255, 0),\n    (dead, 0, 0, 0, quantity 10),\n}\ntransitions {\n    (happy, dead, true),\n}\n";
    match analyze(text, WORLD) {
        Err(errors) => {
            assert_eq!(errors.len(), 1);
            assert_eq!(errors[0], "The transition 'happy -> dead' refers to the state \"happy\", but it's not defined.");
        },
        _ => assert!(false),
    }
}

#[test]
fn parse_true_error_fails() {
    let text = "states {\n    (alive, 0, 255, 0),\n    (dead, 0, 0, 0, quantity 10),\n}\ntransitions {\n    (alive, dead, true && A is dead),\n}\n";
    match analyze(text, WORLD) {
        Err(errors) => {
            assert_eq!(errors.len(), 1);
            assert_eq!(errors[0], "The \"true\" condition should not be alone, not combined with other conditions.");
        },
        _ => assert!(false),
    }
}

#[test]
fn parse_two_default_states_fails() {
    let text = "states {\n    (alive, 0, 255, 0),\n    (dead, 0, 0, 0),\n}\ntransitions {\n}\n";
    match analyze(text, WORLD) {
        Err(errors) => {
            assert_eq!(errors.len(), 1);
            assert_eq!(errors[0], "There must be exactly one default state (without a distribution specified), but there are currently 2 of such states.");
        },
        _ => assert!(false),
    }
}

#[test]
fn parse_wrong_proportions_fails() {
    let text = "states {\n    (alive, 0, 255, 0),\n    (sick, 1, 1, 1, proportion 0.5),\n    (dead, 0, 0, 0, proportion 0.6),\n}\ntransitions {\n}\n";
    match analyze(text, WORLD) {
        Err(errors) => {
            assert_eq!(errors.len(), 1);
            assert_eq!(errors[0], "The sum of state's proportions must be lesser than 1.0, but it is currently 1.1.");
        },
        _ => assert!(false),
    }
}

#[test]
fn all_three_distribution_errors_in_file_order() {
    let text = "states {\n    (a, 0, 0, 0, proportion 0.7),\n    (b, 1, 1, 1, proportion 0.7),\n    (c, 2, 2, 2, quantity 200),\n}\ntransitions {\n}\n";
    match analyze(text, WORLD) {
        Err(errors) => {
            assert_eq!(errors.len(), 3);
            assert_eq!(errors[0], "The sum of state's proportions must be lesser than 1.0, but it is currently 1.4.");
            assert_eq!(errors[1], "There must be exactly one default state (without a distribution specified), but there are currently 0 of such states.");
            assert_eq!(errors[2], "The sum of state's quantities is 200, but the world cannot hold that, its size is only 10 * 10 = 100.");
        },
        _ => assert!(false),
    }
}

#[test]
fn delay_three_expands_into_two_synthetic_states() {
    let text = "states {\n    (waiting, 1, 2, 3, quantity 4),\n    (done, 0, 0, 0),\n}\ntransitions {\n    (waiting, done, delay, 3, done > 0),\n}\n";
    let rules = analyze(text, WORLD).unwrap();
    // Two base states plus two synthetic ones.
    assert_eq!(rules.states.len(), 4);
    assert_eq!(rules.states[2].name, "waiting");
    assert_eq!(rules.states[3].name, "waiting");
    assert_eq!(rules.states[2].color, (1, 2, 3));
    assert_eq!(rules.states[2].distribution, StateDistribution::Quantity(0));
    assert_eq!(rules.states[3].distribution, StateDistribution::Quantity(0));
    // Three chained transitions: origin -> synth1 -> synth2 -> destination.
    assert_eq!(rules.transitions.len(), 3);
    assert_eq!((rules.transitions[0].0, rules.transitions[0].1), (0, 2));
    assert_eq!((rules.transitions[1].0, rules.transitions[1].1), (2, 3));
    assert_eq!((rules.transitions[2].0, rules.transitions[2].1), (3, 1));
    // The origin's implicit range spans exactly the synthetic identifiers.
    assert_eq!(rules.implicit_state_ranges.len(), 2);
    let range = rules.implicit_state_ranges[0].unwrap();
    assert_eq!((range.start, range.len), (2, 2));
    assert!(rules.implicit_state_ranges[1].is_none());
}

#[test]
fn reparsing_the_same_description_yields_identical_rules() {
    let first = analyze(BENCHMARK, WORLD).unwrap();
    let second = analyze(BENCHMARK, WORLD).unwrap();
    assert_eq!(first, second);
}
