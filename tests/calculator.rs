use calculator::evaluator::{ArithmeticError, Evaluator, Operation};
use calculator::expression::{ArithmeticNode, ArithmeticNodeKind, BinOp, ParserError};
use calculator::lexer::{LexError, Lexeme, LexemeKind, Lexer, Span};
use calculator::statement::{ParserError as StatementError, Statement};

fn float(b: u64) -> f64 {
    f64::from_bits(b)
}

fn ops(o: Operation) -> u64 {
    let r: f64 = match o {
        Operation::Literal(t) => t.parse::<f64>().unwrap(),
        Operation::Add(a, b) => float(a) + float(b),
        Operation::Sub(a, b) => float(a) - float(b),
        Operation::Mul(a, b) => float(a) * float(b),
        Operation::Div(a, b) => float(a) / float(b),
        Operation::Pow(a, b) => float(a).powf(float(b)),
        Operation::Root(n, x) => float(x).powf(1.0 / float(n)),
        Operation::Log(base, v) => float(v).log(float(base)),
        Operation::Sin(a) => float(a).sin(),
        Operation::Cos(a) => float(a).cos(),
        Operation::Tan(a) => float(a).tan(),
        Operation::Deg(a) => float(a).to_radians(),
    };
    r.to_bits()
}

fn tokens(line: &str) -> Vec<Lexeme> {
    Lexer::new(line.to_string()).all().unwrap()
}

fn parse(line: &str) -> Result<ArithmeticNode, ParserError> {
    ArithmeticNode::parse(&tokens(line))
}

fn statement(line: &str) -> Statement {
    Statement::parse(&tokens(line)).unwrap()
}

fn run_in(session: &mut Evaluator, line: &str) -> Result<f64, ArithmeticError> {
    session.eval_statement(&statement(line), &ops).map(float)
}

fn run(line: &str) -> Result<f64, ArithmeticError> {
    run_in(&mut Evaluator::new(), line)
}

fn rpn(line: &str) -> String {
    parse(line).unwrap().into_rpn()
}

#[test]
fn numeral_parses_to_literal_and_evaluates_to_itself() {
    for text in ["7", "3.25", "0.5", "120", "007"] {
        let toks = tokens(text);
        assert_eq!(toks.len(), 1);
        let tree = ArithmeticNode::parse(&toks).unwrap();
        match &tree.kind {
            ArithmeticNodeKind::Literal(l) => assert_eq!(l, text),
            other => panic!("not a literal: {other:?}"),
        }
        assert_eq!(tree.span, Span::new(0, text.len()));
        assert_eq!(run(text).unwrap(), text.parse::<f64>().unwrap());
    }
}

#[test]
fn subtraction_is_left_associative() {
    assert_eq!(run("8 - 3 - 2").unwrap(), 3.0);
    assert_eq!(rpn("8 - 3 - 2"), "((8 3 -) 2 -)");
}

#[test]
fn multiplication_binds_tighter_than_addition() {
    assert_eq!(run("2 + 3 * 4").unwrap(), 14.0);
}

#[test]
fn power_binds_tighter_than_multiplication() {
    assert_eq!(run("2 * 3 ^ 2").unwrap(), 18.0);
}

#[test]
fn unary_minus_before_addition() {
    assert_eq!(run("-3 + 4").unwrap(), 1.0);
}

#[test]
fn double_negation_collapses() {
    assert_eq!(run("- -3").unwrap(), 3.0);
    assert_eq!(rpn("- -3"), "((3 -) -)");
}

#[test]
fn unary_plus_is_dropped() {
    assert_eq!(run("+4 * 2").unwrap(), 8.0);
    assert_eq!(rpn("+ 4"), "4");
}

#[test]
fn divide_by_zero_fails() {
    match run("5 / 0") {
        Err(ArithmeticError::DivideByZero(span)) => assert_eq!(span, Span::new(0, 5)),
        other => panic!("unexpected: {other:?}"),
    }
    assert!(matches!(run("1 / -0"), Err(ArithmeticError::DivideByZero(_))));
}

#[test]
fn infinity_over_infinity_fails() {
    match run("INF / INF") {
        Err(ArithmeticError::InfinityDivision(span)) => assert_eq!(span, Span::new(0, 9)),
        other => panic!("unexpected: {other:?}"),
    }
    assert_eq!(run("INF / 2").unwrap(), f64::INFINITY);
}

#[test]
fn log_of_zero_fails() {
    match run("log(2, 0)") {
        Err(ArithmeticError::LogZero(span)) => assert_eq!(span, Span::new(0, 9)),
        other => panic!("unexpected: {other:?}"),
    }
}

#[test]
fn log_base_two_of_eight() {
    let v = run("log(2, 8)").unwrap();
    assert!((v - 3.0).abs() < 1e-12);
}

#[test]
fn undefined_variable_fails_with_its_name() {
    match run("foo + 1") {
        Err(ArithmeticError::UndefinedVariable(name, span)) => {
            assert_eq!(name, "foo");
            assert_eq!(span, Span::new(0, 3));
        },
        other => panic!("unexpected: {other:?}"),
    }
}

#[test]
fn assignment_persists_and_failed_assignment_changes_nothing() {
    let mut session = Evaluator::new();
    assert_eq!(run_in(&mut session, "x = 5").unwrap(), 5.0);
    assert_eq!(run_in(&mut session, "x + 1").unwrap(), 6.0);
    assert!(matches!(run_in(&mut session, "x = y"), Err(ArithmeticError::UndefinedVariable(..))));
    assert_eq!(run_in(&mut session, "x").unwrap(), 5.0);
    assert_eq!(session.get_variable("y"), None);
}

#[test]
fn wrong_argument_count_is_reported() {
    match parse("sin(1, 2)") {
        Err(ParserError::InvalidArgumentCount { expected, got }) => {
            assert_eq!(expected, 1);
            assert_eq!(got, 2);
        },
        other => panic!("unexpected: {other:?}"),
    }
    assert!(matches!(
        parse("log(8)"),
        Err(ParserError::InvalidArgumentCount { expected: 2, got: 1 })
    ));
}

#[test]
fn rpn_of_sum_and_product() {
    assert_eq!(rpn("2 + 3 * 4"), "(2 (3 4 *) +)");
}

#[test]
fn rpn_of_functions_and_parentheses() {
    assert_eq!(rpn("nrt(3, 27) - log(2, x)"), "((3 27 nrt) (2 x log) -)");
    assert_eq!(rpn("sin(cos(tan(deg(1))))"), "((((1 deg) tan) cos) sin)");
    assert_eq!(rpn("(1 + 2) * 3"), "((1 2 +) 3 *)");
    assert_eq!(rpn("2 ^ 3 ^ 2"), "((2 3 ^) 2 ^)");
    assert_eq!(rpn("2 * -3"), "(2 (3 -) *)");
}

#[test]
fn statement_text() {
    assert_eq!(statement("x = 1 + 2").into_str(), "x <- (1 2 +)");
    assert_eq!(statement("1 + 2").into_str(), "(1 2 +)");
}

#[test]
fn functions_evaluate() {
    assert!((run("nrt(2, 9)").unwrap() - 3.0).abs() < 1e-12);
    assert!((run("deg(180)").unwrap() - std::f64::consts::PI).abs() < 1e-12);
    assert!((run("sin(PI / 2)").unwrap() - 1.0).abs() < 1e-12);
    assert!((run("cos(0)").unwrap() - 1.0).abs() < 1e-12);
    assert!(run("tan(0)").unwrap().abs() < 1e-12);
}

#[test]
fn presets_are_bound_and_can_be_overwritten() {
    let mut session = Evaluator::new();
    assert_eq!(session.get_variable("PI"), Some(std::f64::consts::PI.to_bits()));
    assert_eq!(session.get_variable("E"), Some(std::f64::consts::E.to_bits()));
    assert_eq!(session.get_variable("INF"), Some(f64::INFINITY.to_bits()));
    assert_eq!(run_in(&mut session, "PI = 3").unwrap(), 3.0);
    assert_eq!(session.get_variable("PI"), Some(3.0f64.to_bits()));
    session.set_variable("z".to_string(), 2.5f64.to_bits());
    assert_eq!(run_in(&mut session, "z * 2").unwrap(), 5.0);
}

#[test]
fn tokens_and_spans() {
    let toks = tokens("  ab=(1.5,x)^*/- ");
    let kinds: Vec<&LexemeKind> = toks.iter().map(|t| &t.kind).collect();
    assert!(matches!(kinds[0], LexemeKind::Word(w) if w == "ab"));
    assert!(matches!(kinds[1], LexemeKind::Equals));
    assert!(matches!(kinds[2], LexemeKind::OpenParen));
    assert!(matches!(kinds[3], LexemeKind::Number(n) if n == "1.5"));
    assert!(matches!(kinds[4], LexemeKind::Comma));
    assert!(matches!(kinds[5], LexemeKind::Word(w) if w == "x"));
    assert!(matches!(kinds[6], LexemeKind::CloseParen));
    assert!(matches!(kinds[7], LexemeKind::Karat));
    assert!(matches!(kinds[8], LexemeKind::Star));
    assert!(matches!(kinds[9], LexemeKind::Slash));
    assert!(matches!(kinds[10], LexemeKind::Minus));
    assert_eq!(toks.len(), 11);
    assert_eq!(toks[0].span, Span::new(2, 4));
    assert_eq!(toks[3].span, Span::new(6, 9));
}

#[test]
fn lexer_steps_one_token_at_a_time() {
    let mut lexer = Lexer::new("1 +".to_string());
    assert!(matches!(lexer.next(), Ok(Some(Lexeme { kind: LexemeKind::Number(_), .. }))));
    assert!(matches!(lexer.next(), Ok(Some(Lexeme { kind: LexemeKind::Plus, .. }))));
    assert!(matches!(lexer.next(), Ok(None)));
    assert!(matches!(lexer.next(), Ok(None)));
}

#[test]
fn lexing_fails_fast() {
    assert_eq!(
        Lexer::new("1 + $ 2".to_string()).all().unwrap_err(),
        LexError::UnrecognizedCharacter(Span::new(4, 5))
    );
    assert_eq!(
        Lexer::new("2 * 1.+3".to_string()).all().unwrap_err(),
        LexError::MalformedNumber(Span::new(4, 6))
    );
    assert_eq!(
        Lexer::new("4.".to_string()).all().unwrap_err(),
        LexError::MalformedNumber(Span::new(0, 2))
    );
    assert_eq!(
        Lexer::new("1.2.3".to_string()).all().unwrap_err(),
        LexError::UnrecognizedCharacter(Span::new(3, 4))
    );
    assert_eq!(
        Lexer::new("a_b".to_string()).all().unwrap_err(),
        LexError::UnrecognizedCharacter(Span::new(1, 2))
    );
    assert!(Lexer::new("   ".to_string()).all().unwrap().is_empty());
}

#[test]
fn invalid_unary_operators() {
    assert!(matches!(parse("* 3"), Err(ParserError::InvalidUnaryOperator(BinOp::Mul))));
    assert!(matches!(parse("/ 3"), Err(ParserError::InvalidUnaryOperator(BinOp::Div))));
    assert!(matches!(parse("^ 3"), Err(ParserError::InvalidUnaryOperator(BinOp::Exp))));
}

#[test]
fn unexpected_tokens() {
    match parse(")") {
        Err(ParserError::UnexpectedToken(t)) => assert!(matches!(t.kind, LexemeKind::CloseParen)),
        other => panic!("unexpected: {other:?}"),
    }
    match parse("1 ) + 2") {
        Err(ParserError::UnexpectedToken(t)) => assert_eq!(t.span, Span::new(2, 3)),
        other => panic!("unexpected: {other:?}"),
    }
    assert!(matches!(parse(","), Err(ParserError::UnexpectedToken(_))));
}

#[test]
fn unknown_function_is_recoverable() {
    match parse("sqrt(4)") {
        Err(ParserError::UnrecognizedFunction(name, span)) => {
            assert_eq!(name, "sqrt");
            assert_eq!(span, Span::new(0, 4));
        },
        other => panic!("unexpected: {other:?}"),
    }
}

fn offending(line: &str) -> Lexeme {
    match parse(line) {
        Err(ParserError::UnexpectedToken(t)) => t,
        other => panic!("unexpected: {other:?}"),
    }
}

#[test]
fn malformed_expressions_name_the_offending_token() {
    let t = offending("2 +");
    assert!(matches!(t.kind, LexemeKind::Plus));
    assert_eq!(t.span, Span::new(2, 3));
    let t = offending("()");
    assert!(matches!(t.kind, LexemeKind::CloseParen));
    let t = offending("(1 + 2");
    assert!(matches!(t.kind, LexemeKind::OpenParen));
    assert_eq!(t.span, Span::new(0, 1));
    let t = offending("2 3");
    assert!(matches!(t.kind, LexemeKind::Number(ref n) if n == "3"));
    let t = offending("(1) 2");
    assert_eq!(t.span, Span::new(4, 5));
    let t = offending("f(1) x");
    assert!(matches!(t.kind, LexemeKind::Word(ref w) if w == "x"));
    let t = offending(", 2");
    assert!(matches!(t.kind, LexemeKind::Comma));
    let t = offending("log(, 2)");
    assert!(matches!(t.kind, LexemeKind::Comma));
    assert_eq!(t.span, Span::new(4, 5));
    match Statement::parse(&tokens("x =")) {
        Err(StatementError::Arithmetic(ParserError::UnexpectedToken(t))) => {
            assert!(matches!(t.kind, LexemeKind::Equals));
        },
        other => panic!("unexpected: {other:?}"),
    }
}

#[test]
fn unicode_whitespace_is_skipped() {
    assert!(Lexer::new("\u{A0}".to_string()).all().unwrap().is_empty());
    assert!(matches!(Lexer::new("\u{3000}\u{2028}".to_string()).next(), Ok(None)));
    let toks = tokens("\u{A0}1\u{3000}+\u{85}x");
    assert_eq!(toks.len(), 3);
    assert_eq!(toks[0].span, Span::new(2, 3));
    assert!(matches!(toks[1].kind, LexemeKind::Plus));
    assert_eq!(toks[1].span, Span::new(6, 7));
    assert_eq!(toks[2].span, Span::new(9, 10));
    assert_eq!(run("\u{2003}2 *\u{A0}3").unwrap(), 6.0);
}

#[test]
fn spans_are_byte_offsets() {
    assert_eq!(
        Lexer::new("1 + \u{e9}".to_string()).all().unwrap_err(),
        LexError::UnrecognizedCharacter(Span::new(4, 6))
    );
    match run("\u{A0}5 / 0") {
        Err(ArithmeticError::DivideByZero(span)) => assert_eq!(span, Span::new(2, 7)),
        other => panic!("unexpected: {other:?}"),
    }
}

#[test]
fn span_helpers() {
    let a = Span::new(3, 5);
    let b = Span::new(1, 4);
    assert_eq!(a.up_to(&b), Span::new(1, 5));
    assert_eq!(b.up_to(&a), Span::new(1, 5));
    assert_eq!(Span::new(2, 4).underline("a + bc", Some("here")), "a + bc\n  -- << here");
    assert_eq!(Span::new(0, 1).underline("a", None), "a\n-");
}

#[test]
fn diagnostics() {
    let e = run("1 + 5 / 0").unwrap_err();
    assert_eq!(*e.span(), Span::new(4, 9));
    assert_eq!(e.message(), "Division by Zero");
    assert_eq!(e.contextualize("1 + 5 / 0"), "1 + 5 / 0\n    ----- << Division by Zero");
    assert_eq!(run("INF / INF").unwrap_err().message(), "Undefined Infinite Division");
    assert_eq!(run("log(3, 0)").unwrap_err().message(), "Logarithm of Zero");
    assert_eq!(run("2 * foo").unwrap_err().message(), "Undefined variable: \"foo\"");
    assert_eq!(
        run("2 * foo").unwrap_err().contextualize("2 * foo"),
        "2 * foo\n    --- << Undefined variable: \"foo\""
    );
}
