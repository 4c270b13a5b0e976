use delta_lang::ast::{
    BinaryOperation, BinaryOperator, Expression, FunctionCall, FunctionDef, LetStatement,
    Program, ShowStatement, Statement, WhenStatement,
};
use delta_lang::environment::Environment;
use delta_lang::evaluator::{Action, Evaluator};
use delta_lang::lexer::{LexError, Lexer};
use delta_lang::parser::Parser;
use delta_lang::semantics::{Arithmetic, RuntimeError};
use delta_lang::values::{
    call_value, occurs, operator_text, truth_string, truthy, undefined_value, unevaluated_value,
};

/// The text that a number literal stands for.
fn literal(lexeme: &str) -> String {
    lexeme.parse::<f64>().unwrap_or(0.0).to_string()
}

/// Double-precision arithmetic on two values.
fn arithmetic(operator: BinaryOperator, left: &str, right: &str) -> Arithmetic {
    let (left, right) = match (left.parse::<f64>(), right.parse::<f64>()) {
        (Ok(left), Ok(right)) => (left, right),
        _ => return Arithmetic::NotNumeric,
    };
    match operator {
        BinaryOperator::GreaterThan => Arithmetic::Truth(left > right),
        BinaryOperator::LessThan => Arithmetic::Truth(left < right),
        BinaryOperator::GreaterThanOrEqual => Arithmetic::Truth(left >= right),
        BinaryOperator::LessThanOrEqual => Arithmetic::Truth(left <= right),
        BinaryOperator::Equal => Arithmetic::Truth((left - right).abs() < f64::EPSILON),
        BinaryOperator::NotEqual => Arithmetic::Truth((left - right).abs() >= f64::EPSILON),
        BinaryOperator::Add => Arithmetic::Value((left + right).to_string()),
        BinaryOperator::Subtract => Arithmetic::Value((left - right).to_string()),
        BinaryOperator::Multiply => Arithmetic::Value((left * right).to_string()),
        BinaryOperator::Divide => {
            if right == 0.0 {
                Arithmetic::DivisionByZero
            } else {
                Arithmetic::Value((left / right).to_string())
            }
        }
    }
}

/// What a run made visible, and how it ended.
#[derive(Debug, PartialEq)]
struct Run {
    lines: Vec<String>,
    defined: Vec<String>,
    failure: Option<RuntimeError>,
}

fn run_program(program: &Program) -> Run {
    let mut evaluator = Evaluator::new(program);
    let mut run = Run { lines: vec![], defined: vec![], failure: None };
    loop {
        match evaluator.step() {
            Action::Show(line) => run.lines.push(line),
            Action::Define(name) => run.defined.push(name),
            Action::Literal(lexeme) => assert!(evaluator.supply_literal(literal(&lexeme))),
            Action::Compute { operator, left, right } => {
                assert!(evaluator.supply_arithmetic(arithmetic(operator, &left, &right)))
            }
            Action::Finished => return run,
            Action::Failed(error) => {
                run.failure = Some(error);
                return run;
            }
        }
    }
}

fn program_of(source: &str) -> Program {
    let tokens = Lexer::new(source).tokenize().unwrap();
    Parser::new(tokens).parse().unwrap()
}

fn run(source: &str) -> Run {
    run_program(&program_of(source))
}

fn lines(source: &str) -> Vec<String> {
    let run = run(source);
    assert_eq!(run.failure, None);
    run.lines
}

fn number(lexeme: &str) -> Expression {
    Expression::Number(lexeme.to_string())
}

fn text(value: &str) -> Expression {
    Expression::String(value.to_string())
}

fn binary(left: Expression, operator: BinaryOperator, right: Expression) -> Expression {
    Expression::BinaryOp(BinaryOperation {
        left: Box::new(left),
        operator,
        right: Box::new(right),
    })
}

fn show(value: Expression) -> Statement {
    Statement::Show(ShowStatement { value })
}

#[test]
fn show_1_plus_2_writes_3() {
    assert_eq!(
        run("show 1 + 2"),
        Run { lines: vec!["3".to_string()], defined: vec![], failure: None }
    );
}

#[test]
fn when_the_condition_holds_the_block_runs() {
    assert_eq!(lines("when 1 is less than 2 then\n    show \"yes\""), vec!["yes"]);
}

#[test]
fn when_the_condition_fails_the_otherwise_block_runs() {
    assert_eq!(
        lines("when 2 is less than 1 then\n    show \"yes\"\n    otherwise\n        show \"no\""),
        vec!["no"]
    );
    assert_eq!(
        lines("when 1 is less than 2 then\n    show \"yes\"\n    otherwise\n        show \"no\""),
        vec!["yes"]
    );
}

#[test]
fn otherwise_under_the_when_runs_when_the_condition_fails() {
    assert_eq!(
        lines("when 2 is less than 1 then\n    show \"yes\"\notherwise\n    show \"no\""),
        vec!["no"]
    );
    assert_eq!(
        lines("when 1 is less than 2 then\n    show \"yes\"\notherwise\n    show \"no\""),
        vec!["yes"]
    );
    assert_eq!(
        lines("when 2 is less than 1 then\n    show \"yes\"\notherwise\n    show \"no\"\nshow \"after\""),
        vec!["no", "after"]
    );
}

#[test]
fn when_the_condition_fails_and_nothing_else_is_given_nothing_runs() {
    assert_eq!(lines("when 2 is less than 1 then\n    show \"yes\"\nshow \"after\""), vec!["after"]);
}

#[test]
fn division_by_zero_stops_the_run() {
    assert_eq!(
        run("show 10 / 0"),
        Run { lines: vec![], defined: vec![], failure: Some(RuntimeError::DivisionByZero) }
    );
}

#[test]
fn nothing_is_written_after_the_failing_line() {
    assert_eq!(
        run("show 1\nshow 10 / 0\nshow 2"),
        Run {
            lines: vec!["1".to_string()],
            defined: vec![],
            failure: Some(RuntimeError::DivisionByZero),
        }
    );
}

#[test]
fn a_failure_in_a_block_stops_the_run() {
    assert_eq!(
        run("when 1 is less than 2 then\n    show \"a\"\n    let x be 1 / 0\n    show \"b\"\nshow \"c\""),
        Run {
            lines: vec!["a".to_string()],
            defined: vec![],
            failure: Some(RuntimeError::DivisionByZero),
        }
    );
}

#[test]
fn a_failure_in_a_condition_stops_the_run() {
    assert_eq!(
        run("when 1 / 0 then\n    show 1\nshow 2").failure,
        Some(RuntimeError::DivisionByZero)
    );
}

#[test]
fn a_failure_on_the_left_comes_before_the_right_is_looked_at() {
    assert_eq!(run("show 1 / 0 + 2 / 0").failure, Some(RuntimeError::DivisionByZero));
    assert_eq!(run("1 / 0").failure, Some(RuntimeError::DivisionByZero));
}

#[test]
fn a_failed_machine_stays_failed() {
    let program = program_of("show 1 / 0");
    let mut evaluator = Evaluator::new(&program);
    assert_eq!(evaluator.step(), Action::Literal("1".to_string()));
    assert!(evaluator.supply_literal("1".to_string()));
    assert_eq!(evaluator.step(), Action::Literal("0".to_string()));
    assert!(evaluator.supply_literal("0".to_string()));
    assert_eq!(
        evaluator.step(),
        Action::Compute {
            operator: BinaryOperator::Divide,
            left: "1".to_string(),
            right: "0".to_string(),
        }
    );
    assert!(evaluator.supply_arithmetic(Arithmetic::DivisionByZero));
    assert_eq!(evaluator.step(), Action::Failed(RuntimeError::DivisionByZero));
    assert_eq!(evaluator.step(), Action::Failed(RuntimeError::DivisionByZero));
}

#[test]
fn a_finished_machine_stays_finished() {
    let program = program_of("show \"a\"");
    let mut evaluator = Evaluator::new(&program);
    assert_eq!(evaluator.step(), Action::Show("a".to_string()));
    assert_eq!(evaluator.step(), Action::Finished);
    assert_eq!(evaluator.step(), Action::Finished);
}

#[test]
fn a_question_is_asked_again_until_it_is_answered() {
    let program = program_of("show 7");
    let mut evaluator = Evaluator::new(&program);
    assert_eq!(evaluator.step(), Action::Literal("7".to_string()));
    assert_eq!(evaluator.step(), Action::Literal("7".to_string()));
    assert!(!evaluator.supply_arithmetic(Arithmetic::Truth(true)));
    assert_eq!(evaluator.step(), Action::Literal("7".to_string()));
    assert!(evaluator.supply_literal("seven".to_string()));
    assert!(!evaluator.supply_literal("eight".to_string()));
    assert_eq!(evaluator.step(), Action::Show("seven".to_string()));
    assert_eq!(evaluator.step(), Action::Finished);
}

#[test]
fn an_answer_nobody_asked_for_is_refused() {
    let program = program_of("show \"a\"");
    let mut evaluator = Evaluator::new(&program);
    assert!(!evaluator.supply_literal("1".to_string()));
    assert!(!evaluator.supply_arithmetic(Arithmetic::NotNumeric));
    assert_eq!(evaluator.step(), Action::Show("a".to_string()));
    assert!(!evaluator.supply_literal("1".to_string()));
    assert!(!evaluator.supply_arithmetic(Arithmetic::DivisionByZero));
    assert_eq!(evaluator.step(), Action::Finished);
}

#[test]
fn a_literal_question_does_not_take_an_arithmetic_answer() {
    let program = program_of("show 1 + 2");
    let mut evaluator = Evaluator::new(&program);
    assert_eq!(evaluator.step(), Action::Literal("1".to_string()));
    assert!(evaluator.supply_literal("1".to_string()));
    assert_eq!(evaluator.step(), Action::Literal("2".to_string()));
    assert!(evaluator.supply_literal("2".to_string()));
    let question = Action::Compute {
        operator: BinaryOperator::Add,
        left: "1".to_string(),
        right: "2".to_string(),
    };
    assert_eq!(evaluator.step(), question);
    assert!(!evaluator.supply_literal("3".to_string()));
    assert_eq!(evaluator.step(), question);
    assert!(evaluator.supply_arithmetic(Arithmetic::Value("3".to_string())));
    assert_eq!(evaluator.step(), Action::Show("3".to_string()));
}

#[test]
fn operands_are_asked_for_left_first() {
    let program = Program {
        statements: vec![show(binary(
            binary(text("a"), BinaryOperator::Add, text("b")),
            BinaryOperator::Multiply,
            binary(text("c"), BinaryOperator::Subtract, text("d")),
        ))],
    };
    let mut evaluator = Evaluator::new(&program);
    assert_eq!(
        evaluator.step(),
        Action::Compute {
            operator: BinaryOperator::Add,
            left: "a".to_string(),
            right: "b".to_string(),
        }
    );
    assert!(evaluator.supply_arithmetic(Arithmetic::Value("1".to_string())));
    assert_eq!(
        evaluator.step(),
        Action::Compute {
            operator: BinaryOperator::Subtract,
            left: "c".to_string(),
            right: "d".to_string(),
        }
    );
    assert!(evaluator.supply_arithmetic(Arithmetic::Value("2".to_string())));
    assert_eq!(
        evaluator.step(),
        Action::Compute {
            operator: BinaryOperator::Multiply,
            left: "1".to_string(),
            right: "2".to_string(),
        }
    );
    assert!(evaluator.supply_arithmetic(Arithmetic::Value("two".to_string())));
    assert_eq!(evaluator.step(), Action::Show("two".to_string()));
    assert_eq!(evaluator.step(), Action::Finished);
}

#[test]
fn an_answer_that_does_not_fit_the_operator_is_refused() {
    let arithmetic = [
        BinaryOperator::Add,
        BinaryOperator::Subtract,
        BinaryOperator::Multiply,
        BinaryOperator::Divide,
    ];
    let relations = [
        BinaryOperator::GreaterThan,
        BinaryOperator::LessThan,
        BinaryOperator::GreaterThanOrEqual,
        BinaryOperator::LessThanOrEqual,
        BinaryOperator::Equal,
        BinaryOperator::NotEqual,
    ];
    for operator in arithmetic {
        let program = Program { statements: vec![show(binary(text("a"), operator, text("b")))] };
        let question =
            Action::Compute { operator, left: "a".to_string(), right: "b".to_string() };
        let mut evaluator = Evaluator::new(&program);
        assert_eq!(evaluator.step(), question);
        assert!(!evaluator.supply_arithmetic(Arithmetic::Truth(true)));
        assert!(!evaluator.supply_arithmetic(Arithmetic::Truth(false)));
        if operator != BinaryOperator::Divide {
            assert!(!evaluator.supply_arithmetic(Arithmetic::DivisionByZero));
        }
        assert_eq!(evaluator.step(), question);
        assert!(evaluator.supply_arithmetic(Arithmetic::Value("c".to_string())));
        assert_eq!(evaluator.step(), Action::Show("c".to_string()));
        assert_eq!(evaluator.step(), Action::Finished);
    }
    for operator in relations {
        let program = Program { statements: vec![show(binary(text("a"), operator, text("b")))] };
        let question =
            Action::Compute { operator, left: "a".to_string(), right: "b".to_string() };
        let mut evaluator = Evaluator::new(&program);
        assert_eq!(evaluator.step(), question);
        assert!(!evaluator.supply_arithmetic(Arithmetic::Value("c".to_string())));
        assert!(!evaluator.supply_arithmetic(Arithmetic::DivisionByZero));
        assert_eq!(evaluator.step(), question);
        assert!(evaluator.supply_arithmetic(Arithmetic::Truth(true)));
        assert_eq!(evaluator.step(), Action::Show("true".to_string()));
        assert_eq!(evaluator.step(), Action::Finished);
    }
}

#[test]
fn every_operator_takes_the_answer_that_the_operands_are_no_numbers() {
    let operators = [
        (BinaryOperator::GreaterThan, "(a GreaterThan b)"),
        (BinaryOperator::NotEqual, "(a NotEqual b)"),
        (BinaryOperator::Add, "(a Add b)"),
        (BinaryOperator::Divide, "(a Divide b)"),
    ];
    for (operator, written) in operators {
        let program = Program { statements: vec![show(binary(text("a"), operator, text("b")))] };
        let mut evaluator = Evaluator::new(&program);
        evaluator.step();
        assert!(evaluator.supply_arithmetic(Arithmetic::NotNumeric));
        assert_eq!(evaluator.step(), Action::Show(written.to_string()));
    }
}

#[test]
fn answers_fit_their_operators() {
    assert!(Arithmetic::NotNumeric.fits(BinaryOperator::Add));
    assert!(Arithmetic::NotNumeric.fits(BinaryOperator::Equal));
    assert!(Arithmetic::Truth(true).fits(BinaryOperator::LessThanOrEqual));
    assert!(!Arithmetic::Truth(true).fits(BinaryOperator::Subtract));
    assert!(Arithmetic::Value("1".to_string()).fits(BinaryOperator::Multiply));
    assert!(!Arithmetic::Value("1".to_string()).fits(BinaryOperator::GreaterThan));
    assert!(Arithmetic::DivisionByZero.fits(BinaryOperator::Divide));
    assert!(!Arithmetic::DivisionByZero.fits(BinaryOperator::Multiply));
    assert!(!Arithmetic::DivisionByZero.fits(BinaryOperator::NotEqual));
    assert!(BinaryOperator::GreaterThanOrEqual.relates());
    assert!(!BinaryOperator::Divide.relates());
}

#[test]
fn numbers_are_written_in_their_shortest_form() {
    assert_eq!(lines("show 5"), vec!["5"]);
    assert_eq!(lines("show 1.50"), vec!["1.5"]);
    assert_eq!(lines("show 007"), vec!["7"]);
    assert_eq!(lines("show 10 / 4"), vec!["2.5"]);
    assert_eq!(lines("show 2 - 5"), vec!["-3"]);
    assert_eq!(lines("show 0.1 + 0.2"), vec!["0.30000000000000004"]);
}

#[test]
fn a_malformed_number_counts_as_zero() {
    assert_eq!(lines("show 1.2.3"), vec!["0"]);
    assert_eq!(lines("show 1.2.3 + 4"), vec!["4"]);
}

#[test]
fn arithmetic_follows_precedence() {
    assert_eq!(lines("show 1 + 2 * 3"), vec!["7"]);
    assert_eq!(lines("show 10 - 4 - 3"), vec!["3"]);
    assert_eq!(lines("show 8 / 4 / 2"), vec!["1"]);
}

#[test]
fn relations_give_true_or_false() {
    assert_eq!(lines("show 1 is less than 2"), vec!["true"]);
    assert_eq!(lines("show 1 is greater than 2"), vec!["false"]);
    assert_eq!(lines("show 2 is greater than or equal 2"), vec!["true"]);
    assert_eq!(lines("show 3 is less than or equal 2"), vec!["false"]);
    assert_eq!(lines("show 2 is equal 2.0"), vec!["true"]);
    assert_eq!(lines("show 2 is not equal 2"), vec!["false"]);
    assert_eq!(lines("show 1 + 1 is equal 2"), vec!["true"]);
}

#[test]
fn text_is_written_as_it_is() {
    assert_eq!(lines("show \"hello world\""), vec!["hello world"]);
    assert_eq!(lines("show \"a\\tb\""), vec!["a\tb"]);
    assert_eq!(lines("show \"\""), vec![""]);
}

#[test]
fn text_that_reads_as_a_number_is_a_number() {
    assert_eq!(lines("show \"2\" * \"3\""), vec!["6"]);
}

#[test]
fn let_binds_and_rebinds() {
    assert_eq!(lines("let x be 5\nshow x\nlet x be x + 1\nshow x"), vec!["5", "6"]);
    assert_eq!(lines("let a be \"one\"\nlet b be a\nlet a be \"two\"\nshow a\nshow b"), vec!["two", "one"]);
}

#[test]
fn blocks_share_the_one_table() {
    assert_eq!(
        lines("let x be 1\nwhen x is equal 1 then\n    let x be 2\n    let y be 3\nshow x\nshow y"),
        vec!["2", "3"]
    );
}

#[test]
fn an_unbound_identifier_has_a_marker_value() {
    assert_eq!(lines("show y"), vec!["<undefined: y>"]);
    assert_eq!(lines("let x be y\nshow x"), vec!["<undefined: y>"]);
}

#[test]
fn operands_that_are_no_numbers_give_the_operation_written_out() {
    assert_eq!(lines("show \"abc\" + 1"), vec!["(abc Add 1)"]);
    assert_eq!(lines("show 1 is greater than \"x\""), vec!["(1 GreaterThan x)"]);
    assert_eq!(lines("show y * 2"), vec!["(<undefined: y> Multiply 2)"]);
    assert_eq!(lines("show \"a\" / 0"), vec!["(a Divide 0)"]);
    assert_eq!(lines("show 1 + \"a\" - 2"), vec!["((1 Add a) Subtract 2)"]);
}

#[test]
fn a_value_that_holds_true_counts_as_true() {
    assert_eq!(lines("when \"true\" then\n    show 1"), vec!["1"]);
    assert_eq!(lines("when \"it is True.\" then\n    show 1"), vec!["1"]);
    assert_eq!(lines("when \"untrue\" then\n    show 1"), vec!["1"]);
    assert_eq!(lines("when \"TRUE\" then\n    show 1"), Vec::<String>::new());
    assert_eq!(lines("when \"false\" then\n    show 1"), Vec::<String>::new());
    assert_eq!(lines("when 1 then\n    show 1"), Vec::<String>::new());
    assert_eq!(lines("when truest then\n    show 1"), vec!["1"]);
}

#[test]
fn whens_nest_at_run_time() {
    let source = "let x be 3\nwhen x is greater than 1 then\n    show \"a\"\n    when x is greater than 2 then\n        show \"b\"\n        otherwise\n            show \"c\"\n    show \"d\"\nshow \"e\"";
    assert_eq!(lines(source), vec!["a", "b", "d", "e"]);
    let source = "let x be 2\nwhen x is greater than 1 then\n    show \"a\"\n    when x is greater than 2 then\n        show \"b\"\n        otherwise\n            show \"c\"\n    show \"d\"\nshow \"e\"";
    assert_eq!(lines(source), vec!["a", "c", "d", "e"]);
}

#[test]
fn a_function_is_declared_and_never_run() {
    assert_eq!(
        run("define f with a\n    show \"inside\"\nshow \"outside\"\nf"),
        Run {
            lines: vec!["outside".to_string()],
            defined: vec!["f".to_string()],
            failure: None,
        }
    );
}

#[test]
fn a_declaration_in_a_block_is_reported_when_the_block_runs() {
    let declaration = Statement::FunctionDef(FunctionDef {
        name: "g".to_string(),
        parameters: vec![],
        body: vec![show(binary(number("1"), BinaryOperator::Divide, number("0")))],
    });
    let program = Program {
        statements: vec![Statement::When(WhenStatement {
            condition: text("false"),
            then_block: vec![],
            otherwise_block: Some(vec![declaration, show(text("x"))]),
        })],
    };
    assert_eq!(
        run_program(&program),
        Run { lines: vec!["x".to_string()], defined: vec!["g".to_string()], failure: None }
    );
}

#[test]
fn a_function_call_has_a_marker_value() {
    let call = Expression::FunctionCall(FunctionCall {
        name: "f".to_string(),
        arguments: vec![binary(number("1"), BinaryOperator::Divide, number("0"))],
    });
    let program = Program {
        statements: vec![
            show(call),
            Statement::Let(LetStatement {
                identifier: "x".to_string(),
                value: Expression::FunctionCall(FunctionCall {
                    name: "g".to_string(),
                    arguments: vec![],
                }),
            }),
            show(Expression::Identifier("x".to_string())),
        ],
    };
    assert_eq!(
        run_program(&program),
        Run {
            lines: vec!["<function call: f>".to_string(), "<function call: g>".to_string()],
            defined: vec![],
            failure: None,
        }
    );
}

#[test]
fn an_expression_by_itself_writes_nothing() {
    assert_eq!(lines("1 + 2\nx\n\"text\""), Vec::<String>::new());
}

#[test]
fn an_empty_program_finishes_at_once() {
    let program = Program { statements: vec![] };
    assert_eq!(Evaluator::new(&program).step(), Action::Finished);
}

#[test]
fn an_empty_block_runs_nothing() {
    let program = Program {
        statements: vec![
            Statement::When(WhenStatement {
                condition: text("true"),
                then_block: vec![],
                otherwise_block: Some(vec![show(text("no"))]),
            }),
            show(text("after")),
        ],
    };
    assert_eq!(run_program(&program).lines, vec!["after"]);
}

#[test]
fn the_environment_shows_what_was_bound() {
    let program = program_of("let x be \"a\"\nlet y be x\nshow y");
    let mut evaluator = Evaluator::new(&program);
    assert_eq!(evaluator.environment().lookup(&"x".to_string()), None);
    assert_eq!(evaluator.step(), Action::Show("a".to_string()));
    assert_eq!(evaluator.environment().lookup(&"x".to_string()), Some("a".to_string()));
    assert_eq!(evaluator.environment().lookup(&"y".to_string()), Some("a".to_string()));
    assert_eq!(evaluator.environment().lookup(&"z".to_string()), None);
}

#[test]
fn unterminated_text_fails_before_anything_is_shown() {
    let source = "show \"first\"\nshow \"abc";
    assert_eq!(Lexer::new(source).tokenize(), Err(LexError::UnterminatedString));
    assert_eq!(Lexer::new("show \"abc").tokenize(), Err(LexError::UnterminatedString));
}

#[test]
fn an_environment_binds_and_rebinds() {
    let mut environment = Environment::new();
    assert_eq!(environment.lookup(&"a".to_string()), None);
    environment.bind("a".to_string(), "1".to_string());
    environment.bind("b".to_string(), "2".to_string());
    assert_eq!(environment.lookup(&"a".to_string()), Some("1".to_string()));
    assert_eq!(environment.lookup(&"b".to_string()), Some("2".to_string()));
    environment.bind("a".to_string(), "3".to_string());
    assert_eq!(environment.lookup(&"a".to_string()), Some("3".to_string()));
    assert_eq!(environment.lookup(&"b".to_string()), Some("2".to_string()));
    assert_eq!(environment.lookup(&"".to_string()), None);
    environment.bind("".to_string(), "".to_string());
    assert_eq!(environment.lookup(&"".to_string()), Some("".to_string()));
}

#[test]
fn truthy_looks_for_true_anywhere() {
    assert!(truthy("true"));
    assert!(truthy("True"));
    assert!(truthy("xxtrue"));
    assert!(truthy("Truexx"));
    assert!(!truthy(""));
    assert!(!truthy("tru"));
    assert!(!truthy("tRue"));
    assert!(!truthy("t r u e"));
    assert!(!truthy("false"));
}

#[test]
fn occurs_finds_a_run_of_characters() {
    let chars = |text: &str| text.chars().collect::<Vec<char>>();
    assert!(occurs(&chars(""), &chars("")));
    assert!(occurs(&chars(""), &chars("abc")));
    assert!(occurs(&chars("abc"), &chars("abc")));
    assert!(occurs(&chars("bc"), &chars("abc")));
    assert!(occurs(&chars("ab"), &chars("aab")));
    assert!(!occurs(&chars("abc"), &chars("ab")));
    assert!(!occurs(&chars("ac"), &chars("abc")));
    assert!(!occurs(&chars("a"), &chars("")));
}

#[test]
fn marker_values_are_spelled_out() {
    assert_eq!(undefined_value("x"), "<undefined: x>");
    assert_eq!(call_value("f"), "<function call: f>");
    assert_eq!(unevaluated_value("a", BinaryOperator::LessThanOrEqual, "b"), "(a LessThanOrEqual b)");
    assert_eq!(truth_string(true), "true");
    assert_eq!(truth_string(false), "false");
}

#[test]
fn operators_have_their_names() {
    assert_eq!(operator_text(BinaryOperator::GreaterThan), "GreaterThan");
    assert_eq!(operator_text(BinaryOperator::LessThan), "LessThan");
    assert_eq!(operator_text(BinaryOperator::GreaterThanOrEqual), "GreaterThanOrEqual");
    assert_eq!(operator_text(BinaryOperator::LessThanOrEqual), "LessThanOrEqual");
    assert_eq!(operator_text(BinaryOperator::Equal), "Equal");
    assert_eq!(operator_text(BinaryOperator::NotEqual), "NotEqual");
    assert_eq!(operator_text(BinaryOperator::Add), "Add");
    assert_eq!(operator_text(BinaryOperator::Subtract), "Subtract");
    assert_eq!(operator_text(BinaryOperator::Multiply), "Multiply");
    assert_eq!(operator_text(BinaryOperator::Divide), "Divide");
}
