use leg_script::interp::{interp, Arithmetic, Evaluation, Halt, InterpValue, NumberQuery};
use leg_script::leg_sdl::{print, Line};
use leg_script::parser::{parse, AstOperator};
use leg_script::tokenizer::tokenize;

fn answer(query: &NumberQuery) -> u64 {
    match query {
        NumberQuery::Literal(text) => text.parse::<f64>().unwrap().to_bits(),
        NumberQuery::Operation { operator, lhs, rhs } => {
            let a = f64::from_bits(*lhs);
            let b = f64::from_bits(*rhs);
            let value = match operator {
                AstOperator::Add => a + b,
                AstOperator::Sub => a - b,
                AstOperator::Mult => a * b,
                AstOperator::Div => a / b,
                AstOperator::Pow => a.powf(b),
                AstOperator::Mod => a % b,
            };
            value.to_bits()
        }
    }
}

fn run(source: &str) -> Evaluation {
    let tokens = tokenize(source).unwrap();
    let ast = parse(&tokens).unwrap();
    let mut arithmetic = Arithmetic::new();
    loop {
        let evaluation = interp(&ast, &arithmetic);
        match evaluation.result {
            Err(Halt::Pending(query)) => {
                let value = answer(&query);
                arithmetic.learn(query, value);
            }
            _ => return evaluation,
        }
    }
}

fn number(evaluation: &Evaluation) -> f64 {
    match &evaluation.result {
        Ok(InterpValue::InterpNumber(bits)) => f64::from_bits(*bits),
        other => panic!("no number: {:?}", other),
    }
}

fn lines(evaluation: &Evaluation) -> Vec<String> {
    print(&evaluation.printed)
        .into_iter()
        .map(|line| match line {
            Line::Text(text) => text,
            Line::Number(bits) => f64::from_bits(bits).to_string(),
        })
        .collect()
}

fn error(evaluation: &Evaluation) -> String {
    match &evaluation.result {
        Err(Halt::Error(e)) => e.get_description().to_string(),
        other => panic!("no error: {:?}", other),
    }
}

#[test]
fn multiplication_binds_tighter_than_addition() {
    assert_eq!(number(&run("1 + 2 * 3;")), 7.0);
}

#[test]
fn equal_precedence_groups_to_the_left() {
    assert_eq!(number(&run("2 ^ 3 ^ 2;")), 64.0);
    assert_eq!(number(&run("10 - 4 - 3;")), 3.0);
}

#[test]
fn tighter_operators_fold_into_the_right_operand() {
    assert_eq!(number(&run("1 + 2 ^ 3 * 4;")), 33.0);
    assert_eq!(number(&run("2 * 3 + 4;")), 10.0);
    assert_eq!(number(&run("(1 + 2) * 3;")), 9.0);
    assert_eq!(number(&run("7 % 4 + 10 / 4;")), 5.5);
}

#[test]
fn inner_assignment_is_gone_after_the_block() {
    let evaluation = run("{ x = 1; { x = 2; }; print(x); }");
    assert_eq!(lines(&evaluation), vec!["1"]);
}

#[test]
fn function_resolves_names_where_it_was_declared() {
    let evaluation = run(
        "apply :: (fn) { fn(); };\n{ secret = 42; get :: () { print(secret); }; apply(get); }",
    );
    assert!(evaluation.result.is_ok(), "{:?}", evaluation.result);
    assert_eq!(lines(&evaluation), vec!["42"]);
}

#[test]
fn endless_recursion_overflows_the_stack() {
    let evaluation = run("f :: () { f(); }; f();");
    assert_eq!(error(&evaluation), "Stack overflow!");
}

#[test]
fn hello_script_prints_its_message() {
    let source = "message :String :: \"Hello \\\" World\"; print(message);";
    let tokens = tokenize(source).unwrap();
    assert_eq!(tokens.len(), 11);
    let evaluation = run(source);
    assert!(matches!(evaluation.result, Ok(InterpValue::InterpVoid)));
    assert_eq!(lines(&evaluation), vec!["Hello \\\" World"]);
}

#[test]
fn undefined_variable_is_named() {
    let evaluation = run("print(doesNotExist);");
    assert_eq!(error(&evaluation), "Unable to find variable doesNotExist");
    assert!(evaluation.printed.is_empty());
}
