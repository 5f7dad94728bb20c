use mutations::compiler::lexer::Lexer;

fn lexer_for(text: &str) -> Lexer {
    Lexer::new(text.as_bytes().to_vec())
}

static BENCH_NICE: &str = "th15I5AnAlphanum3r1cId3nt1f1er\nthisTooAndNextUpIsANumber 123456\n< > test <= >= && || == != test , test ( ) { } 3.14 test\n";

static BENCH_UGLY: &str = "th15I5AnAlphanum3r1cId3nt1f1er\n   thisTooAndNextUpIsANumber 123456<\n> test<= >= &&||==!= test,test(){}3.14\ttest";

fn check_benchmark_output(lexer: &mut Lexer) {
    assert_eq!(lexer.get_next_token().unwrap().str, "th15I5AnAlphanum3r1cId3nt1f1er");
    assert_eq!(lexer.get_next_token().unwrap().str, "thisTooAndNextUpIsANumber");
    assert_eq!(lexer.get_next_token().unwrap().str, "123456");
    assert_eq!(lexer.get_next_token().unwrap().str, "<");
    assert_eq!(lexer.get_next_token().unwrap().str, ">");
    assert_eq!(lexer.get_next_token().unwrap().str, "test");
    assert_eq!(lexer.get_next_token().unwrap().str, "<=");
    assert_eq!(lexer.get_next_token().unwrap().str, ">=");
    assert_eq!(lexer.get_next_token().unwrap().str, "&&");
    assert_eq!(lexer.get_next_token().unwrap().str, "||");
    assert_eq!(lexer.get_next_token().unwrap().str, "==");
    assert_eq!(lexer.get_next_token().unwrap().str, "!=");
    assert_eq!(lexer.get_next_token().unwrap().str, "test");
    assert_eq!(lexer.get_next_token().unwrap().str, ",");
    assert_eq!(lexer.get_next_token().unwrap().str, "test");
    assert_eq!(lexer.get_next_token().unwrap().str, "(");
    assert_eq!(lexer.get_next_token().unwrap().str, ")");
    assert_eq!(lexer.get_next_token().unwrap().str, "{");
    assert_eq!(lexer.get_next_token().unwrap().str, "}");
    assert_eq!(lexer.get_next_token().unwrap().str, "3.14");
    assert_eq!(lexer.get_next_token().unwrap().str, "test");
    assert!(lexer.get_next_token().unwrap().str.is_empty());
    assert!(lexer.get_next_token().unwrap().str.is_empty());
}

#[test]
fn tokenize_benchmark_nice_succeeds() {
    let mut lexer = lexer_for(BENCH_NICE);
    check_benchmark_output(&mut lexer);
}

#[test]
fn tokenize_benchmark_ugly_succeeds() {
    let mut lexer = lexer_for(BENCH_UGLY);
    check_benchmark_output(&mut lexer);
}

#[test]
fn tokenize_operator_typo_fails() {
    let mut lexer = lexer_for("|- thisTokenShouldBeReadWithoutIssues");
    match lexer.get_next_token() {
        Err(error) => assert_eq!(
            error,
            "Invalid token \"|-\" - line 1, column 2. Note : recognized operators are ['<', '>'] and [\"&&\", \"||\", \"==\", \"!=\", \"<=\", \">=\"]."
        ),
        _ => assert!(false),
    }
    assert_eq!(lexer.get_next_token().unwrap().str, "thisTokenShouldBeReadWithoutIssues");
}

#[test]
fn tokenize_number_with_two_dots_fails() {
    let mut lexer = lexer_for("1.000.000 thisTokenShouldBeReadWithoutIssues");
    match lexer.get_next_token() {
        Err(error) => assert_eq!(
            error,
            "Invalid token \"1.000.000\" - line 1, column 9. It starts with a digit but is not a number."
        ),
        _ => assert!(false),
    }
    assert_eq!(lexer.get_next_token().unwrap().str, "thisTokenShouldBeReadWithoutIssues");
}

#[test]
fn tokenize_number_with_alphabetic_fails() {
    let mut lexer = lexer_for("10O0 thisTokenShouldBeReadWithoutIssues");
    match lexer.get_next_token() {
        Err(error) => assert_eq!(
            error,
            "Invalid token \"10O0\" - line 1, column 4. It starts with a digit but is not a number."
        ),
        _ => assert!(false),
    }
    assert_eq!(lexer.get_next_token().unwrap().str, "thisTokenShouldBeReadWithoutIssues");
}

#[test]
fn tokenize_id_with_illegal_char_fails() {
    let mut lexer = lexer_for("hello_world thisTokenShouldBeReadWithoutIssues");
    match lexer.get_next_token() {
        Err(error) => assert_eq!(
            error,
            "Invalid token \"hello_world\" - line 1, column 11. It contains illegal characters."
        ),
        _ => assert!(false),
    }
    assert_eq!(lexer.get_next_token().unwrap().str, "thisTokenShouldBeReadWithoutIssues");
}

#[test]
fn tokenize_parenthesized_list_yields_each_token() {
    let mut lexer = lexer_for("( a , 3 , 12 , 255 )");
    let expected = ["(", "a", ",", "3", ",", "12", ",", "255", ")"];
    for want in expected {
        assert_eq!(lexer.get_next_token().unwrap().str, want);
    }
    assert!(lexer.get_next_token().unwrap().str.is_empty());
}

#[test]
fn tokenize_reports_line_and_column() {
    let mut lexer = lexer_for("states {\n  (alive,\n");
    let t1 = lexer.get_next_token().unwrap();
    assert_eq!((t1.str.as_str(), t1.line, t1.column), ("states", 1, 6));
    let t2 = lexer.get_next_token().unwrap();
    assert_eq!((t2.str.as_str(), t2.line, t2.column), ("{", 1, 8));
    let t3 = lexer.get_next_token().unwrap();
    assert_eq!((t3.str.as_str(), t3.line, t3.column), ("(", 2, 3));
    let t4 = lexer.get_next_token().unwrap();
    assert_eq!((t4.str.as_str(), t4.line, t4.column), ("alive", 2, 8));
}
