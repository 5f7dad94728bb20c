use mutations::compiler::parser::parse;

static WORLD: (usize, usize) = (10, 10);

static BENCHMARK: &str = "states {\n    (alive, 0, 255, 0, quantity 20),\n    (sick, 100, 100, 0, proportion 0.25),\n    (dead, 0, 0, 0),\n}\ntransitions {\n    (alive, sick, alive > 4 || B is dead && random 0.25),\n    (sick, dead, delay, 3, true),\n    (dead, alive, alive == 3),\n}\n";

fn parse_text(text: &str) -> Result<mutations::compiler::parser::Ast, String> {
    parse(text.as_bytes().to_vec(), WORLD)
}

#[test]
fn parser_parse_benchmark_succeeds() {
    match parse_text(BENCHMARK) {
        Ok(_) => assert!(true),
        _ => assert!(false),
    }
}

#[test]
fn parse_condition_error_fails() {
    let text = "states {\n    (alive, 0, 255, 0),\n    (dead, 0, 0, 0, quantity 10),\n}\ntransitions {\n    (alive, dead, A is dead),\n    (dead, alive, 3153 > 2),\n}\n";
    match parse_text(text) {
        Err(error) => assert_eq!(
            error,
            "Expected either token \"true\", a neighbor cell identifier (one of \"A\", \"B\", \"C\", \"D\", \"E\", \"F\", \"H\"), or an alphanumeric identifier, but found \"3153\" - line 7, column 22."
        ),
        _ => assert!(false),
    }
}

#[test]
fn parse_expect_comp_operator_fails() {
    let text = "states {\n    (alive, 0, 255, 0),\n    (dead, 0, 0, 0, quantity 10),\n}\ntransitions {\n    (alive, dead, A is dead),\n    (dead, alive, alive plouf 2),\n}\n";
    match parse_text(text) {
        Err(error) => assert_eq!(
            error,
            "Expected one of \"<\", \">\", \"<=\", \">=\", \"==\", or \"!=\" tokens, found \"plouf\" - line 7, column 29."
        ),
        _ => assert!(false),
    }
}

#[test]
fn parse_expect_identifier_fails() {
    let text = "states {\n    (alive, 0, 255, 0),\n    (51566, 0, 0, 0),\n}\ntransitions {\n}\n";
    match parse_text(text) {
        Err(error) => assert_eq!(
            error,
            "Expected an alphanumeric identifier, found \"51566\" - line 3, column 10."
        ),
        _ => assert!(false),
    }
}

#[test]
fn parse_expect_is_token_fails() {
    let text = "states {\n    (alive, 0, 255, 0),\n    (dead, 0, 0, 0, quantity 10),\n}\ntransitions {\n    (alive, dead, A is dead),\n    (dead, alive, alive > 3),\n    (alive, dead, alive2 > 2 && B plouf dead),\n}\n";
    match parse_text(text) {
        Err(error) => assert_eq!(
            error,
            "Expected \"is\", found \"plouf\" - line 8, column 39."
        ),
        _ => assert!(false),
    }
}

#[test]
fn parse_expect_neighbor_number_fails() {
    let text = "states {\n    (alive, 0, 255, 0),\n    (dead, 0, 0, 0, quantity 10),\n}\ntransitions {\n    (alive, dead, A is dead),\n    (dead, alive, alive > 22),\n}\n";
    match parse_text(text) {
        Err(error) => assert_eq!(
            error,
            "Expected an integer between 0 and 8, found \"22\" - line 7, column 28."
        ),
        _ => assert!(false),
    }
}

#[test]
fn parse_expect_proportion_fails() {
    let text = "states {\n    (organisms, 0, 255, 0, proportion 2.5),\n    (dead, 0, 0, 0),\n}\ntransitions {\n}\n";
    match parse_text(text) {
        Err(error) => assert_eq!(
            error,
            "Expected a floating number between 0 and 1, found \"2.5\" - line 2, column 41."
        ),
        _ => assert!(false),
    }
}

#[test]
fn parse_expect_u8_fails() {
    let text = "states {\n    (abcde, 260, 0, 0),\n}\ntransitions {\n}\n";
    match parse_text(text) {
        Err(error) => assert_eq!(
            error,
            "Expected an integer between 0 and 255, found \"260\" - line 2, column 15."
        ),
        _ => assert!(false),
    }
}

#[test]
fn parse_expect_usize_fails() {
    let text = "states {\n    (alive, 0, 255, 0),\n    (dead, 0, 0, 0),\n    (extragalactic, 0, 0, 0, quantity yolo),\n}\ntransitions {\n}\n";
    match parse_text(text) {
        Err(error) => assert_eq!(
            error,
            "Expected an unsigned integer, found \"yolo\" - line 4, column 42."
        ),
        _ => assert!(false),
    }
}

#[test]
fn parse_next_condition_error_fails() {
    let text = "states {\n    (alive, 0, 255, 0),\n    (dead, 0, 0, 0, quantity 10),\n}\ntransitions {\n    (alive, dead, A is dead),\n    (dead, alive, alive > 3),\n    (alive, dead, B is dead && alive2 > 2 dead),\n}\n";
    match parse_text(text) {
        Err(error) => assert_eq!(
            error,
            "Expected either a boolean operator \"&&\", \"||\" or a \")\" token, found \"dead\" - line 8, column 46."
        ),
        _ => assert!(false),
    }
}

#[test]
fn parse_no_states_keyword_fails() {
    match parse_text("plouf {\n}\n") {
        Err(error) => assert_eq!(error, "Expected \"states\", found \"plouf\" - line 1, column 5."),
        _ => assert!(false),
    }
}

#[test]
fn parse_accepts_leading_dot_proportion() {
    let text = "states {\n    (alive, 0, 255, 0, proportion .5 ),\n    (dead, 0, 0, 0),\n}\ntransitions {\n}\n";
    assert!(parse_text(text).is_ok());
}
