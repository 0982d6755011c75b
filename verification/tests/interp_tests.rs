use leg_script::interp::{
    failed, interp, interp_within, Arithmetic, Evaluation, Halt, InterpError, InterpValue,
    NumberFact, NumberQuery, NEGATIVE_ZERO,
};
use leg_script::leg_sdl::{print, print_line, Line};
use leg_script::operators::{apply_number_number_operation, apply_operation, kind_of};
use leg_script::parser::{
    parse, Ast, AstAlias, AstBlock, AstFunctionCall, AstFunctionDeclaration, AstNodeType,
    AstNumberValue, AstOperator, AstVariable,
};
use leg_script::semantics::STACK_SIZE;
use leg_script::tokenizer::tokenize;

fn answer(query: &NumberQuery) -> u64 {
    match query {
        NumberQuery::Literal(text) => text.parse::<f64>().unwrap().to_bits(),
        NumberQuery::Operation { operator, lhs, rhs } => {
            let a = f64::from_bits(*lhs);
            let b = f64::from_bits(*rhs);
            let value = match operator {
                AstOperator::Add => a + b,
                AstOperator::Sub => a - b,
                AstOperator::Mult => a * b,
                AstOperator::Div => a / b,
                AstOperator::Pow => a.powf(b),
                AstOperator::Mod => a % b,
            };
            value.to_bits()
        }
    }
}

fn run_tree(ast: &Ast, stack_size: usize) -> Evaluation {
    let mut arithmetic = Arithmetic::new();
    loop {
        let evaluation = interp_within(ast, &arithmetic, stack_size);
        match evaluation.result {
            Err(Halt::Pending(query)) => {
                let value = answer(&query);
                arithmetic.learn(query, value);
            }
            _ => return evaluation,
        }
    }
}

fn run_within(source: &str, stack_size: usize) -> Evaluation {
    let tokens = tokenize(source).unwrap();
    let ast = parse(&tokens).unwrap();
    run_tree(&ast, stack_size)
}

fn run(source: &str) -> Evaluation {
    run_within(source, STACK_SIZE)
}

fn lines(evaluation: &Evaluation) -> Vec<String> {
    print(&evaluation.printed)
        .into_iter()
        .map(|line| match line {
            Line::Text(text) => text,
            Line::Number(bits) => f64::from_bits(bits).to_string(),
        })
        .collect()
}

fn error(evaluation: &Evaluation) -> String {
    match &evaluation.result {
        Err(Halt::Error(e)) => e.get_description().to_string(),
        other => panic!("no error: {:?}", other),
    }
}

fn number(evaluation: &Evaluation) -> f64 {
    match &evaluation.result {
        Ok(InterpValue::InterpNumber(bits)) => f64::from_bits(*bits),
        other => panic!("no number: {:?}", other),
    }
}

fn text_line(value: &InterpValue) -> String {
    match print_line(value) {
        Line::Text(text) => text,
        Line::Number(bits) => panic!("number {}", bits),
    }
}

#[test]
fn empty_script_is_void() {
    let evaluation = run("");
    assert!(matches!(evaluation.result, Ok(InterpValue::InterpVoid)));
    assert!(evaluation.printed.is_empty());
}

#[test]
fn block_has_the_value_of_its_last_statement() {
    assert_eq!(number(&run("1; 2; 3;")), 3.0);
    assert!(matches!(run("1; ;").result, Ok(InterpValue::InterpVoid)));
    assert!(matches!(run("{ }").result, Ok(InterpValue::InterpVoid)));
    assert_eq!(number(&run("{ 1; { 2; } }")), 2.0);
}

#[test]
fn literals_give_their_values() {
    assert_eq!(number(&run("12.5;")), 12.5);
    match run("\"a b\";").result {
        Ok(InterpValue::InterpString(text)) => assert_eq!(text, "a b"),
        other => panic!("{:?}", other),
    }
}

#[test]
fn each_operator_on_numbers() {
    assert_eq!(number(&run("7 + 2;")), 9.0);
    assert_eq!(number(&run("7 - 2;")), 5.0);
    assert_eq!(number(&run("7 * 2;")), 14.0);
    assert_eq!(number(&run("7 / 2;")), 3.5);
    assert_eq!(number(&run("7 ^ 2;")), 49.0);
    assert_eq!(number(&run("7 % 2;")), 1.0);
}

#[test]
fn missing_answer_is_asked_for() {
    let ast = parse(&tokenize("1 + 2;").unwrap()).unwrap();
    let mut arithmetic = Arithmetic::new();
    match interp(&ast, &arithmetic).result {
        Err(Halt::Pending(NumberQuery::Literal(text))) => assert_eq!(text, "1"),
        other => panic!("{:?}", other),
    }
    arithmetic.learn(NumberQuery::Literal(String::from("1")), 1.0f64.to_bits());
    match interp(&ast, &arithmetic).result {
        Err(Halt::Pending(NumberQuery::Literal(text))) => assert_eq!(text, "2"),
        other => panic!("{:?}", other),
    }
    arithmetic.learn(NumberQuery::Literal(String::from("2")), 2.0f64.to_bits());
    match interp(&ast, &arithmetic).result {
        Err(Halt::Pending(NumberQuery::Operation { operator, lhs, rhs })) => {
            assert_eq!(operator, AstOperator::Add);
            assert_eq!(lhs, 1.0f64.to_bits());
            assert_eq!(rhs, 2.0f64.to_bits());
        }
        other => panic!("{:?}", other),
    }
    arithmetic.learn(
        NumberQuery::Operation {
            operator: AstOperator::Add,
            lhs: 1.0f64.to_bits(),
            rhs: 2.0f64.to_bits(),
        },
        3.0f64.to_bits(),
    );
    match interp(&ast, &arithmetic).result {
        Ok(InterpValue::InterpNumber(bits)) => assert_eq!(bits, 3.0f64.to_bits()),
        other => panic!("{:?}", other),
    }
}

#[test]
fn printed_values_come_with_a_question() {
    let ast = parse(&tokenize("print(\"a\"); 1;").unwrap()).unwrap();
    let evaluation = interp(&ast, &Arithmetic::new());
    assert!(matches!(evaluation.result, Err(Halt::Pending(_))));
    assert_eq!(lines(&evaluation), vec!["a"]);
}

#[test]
fn both_operands_are_evaluated_from_left_to_right() {
    let evaluation = run("a + b;");
    assert_eq!(error(&evaluation), "Unable to find variable a");
    let evaluation = run("1 + b;");
    assert_eq!(error(&evaluation), "Unable to find variable b");
}

#[test]
fn operator_on_other_values_fails() {
    assert_eq!(
        error(&run("\"a\" + 1;")),
        "Operator not yet implemented. lhs: InterpString, rhs: InterpNumber"
    );
    assert_eq!(
        error(&run("f :: () { }; s :: { }; f * s;")),
        "Operator not yet implemented. lhs: InterpFunction, rhs: InterpStruct"
    );
}

#[test]
fn variable_is_found_in_the_scopes_around() {
    let evaluation = run("x = 1; { y = 2; { print(x, y); } }");
    assert_eq!(lines(&evaluation), vec!["1", "2"]);
}

#[test]
fn assignment_gives_void_and_binds_locally() {
    assert!(matches!(run("x = 1;").result, Ok(InterpValue::InterpVoid)));
    assert!(matches!(run("x :: 1;").result, Ok(InterpValue::InterpVoid)));
    let evaluation = run("x = 1; { x = 2; print(x); } print(x);");
    assert_eq!(lines(&evaluation), vec!["2", "1"]);
    let evaluation = run("x = 1; x = 2; print(x);");
    assert_eq!(lines(&evaluation), vec!["2"]);
}

#[test]
fn variable_of_a_closed_block_is_gone() {
    let evaluation = run("{ y = 2; } print(y);");
    assert_eq!(error(&evaluation), "Unable to find variable y");
}

#[test]
fn if_takes_only_numbers_other_than_zero_as_true() {
    assert_eq!(lines(&run("if(1) { print(\"yes\"); };")), vec!["yes"]);
    assert_eq!(lines(&run("if(0 - 2) { print(\"yes\"); };")), vec!["yes"]);
    assert!(lines(&run("if(0) { print(\"yes\"); };")).is_empty());
    assert!(lines(&run("if(0 * (0 - 1)) { print(\"yes\"); };")).is_empty());
    assert!(lines(&run("if(\"text\") { print(\"yes\"); };")).is_empty());
    assert_eq!(lines(&run("if(0 / 0) { print(\"yes\"); };")), vec!["yes"]);
    assert!(matches!(run("if(0) { 1; };").result, Ok(InterpValue::InterpVoid)));
    assert_eq!(number(&run("if(1) { 5; };")), 5.0);
}

#[test]
fn if_needs_one_argument_and_a_body() {
    assert_eq!(error(&run("if() { };")), "if statements can only have one parameter");
    assert_eq!(error(&run("if(1, 2) { };")), "if statements can only have one parameter");
    assert_eq!(error(&run("if(1);")), "If statement must have a body");
    assert_eq!(error(&run("if(0);")), "If statement must have a body");
}

#[test]
fn while_does_nothing() {
    let evaluation = run("while(1) { print(\"never\"); };");
    assert!(matches!(evaluation.result, Ok(InterpValue::InterpVoid)));
    assert!(evaluation.printed.is_empty());
    assert_eq!(error(&run("while(x) { };")), "Unable to find variable x");
}

#[test]
fn print_gives_void_and_one_line_for_each_value() {
    let evaluation = run("f :: () { }; s :: { a :int }; print(\"a\", 1.5, f, s);");
    assert!(matches!(evaluation.result, Ok(InterpValue::InterpVoid)));
    assert_eq!(lines(&evaluation), vec!["a", "1.5", "FUNCTION 0", "STRUCT 0"]);
    assert_eq!(lines(&run("print();")), Vec::<String>::new());
}

#[test]
fn lines_of_every_kind_of_value() {
    assert_eq!(text_line(&InterpValue::InterpVoid), "VOID");
    assert_eq!(text_line(&InterpValue::InterpBoolean(true)), "BOOLEAN true");
    assert_eq!(text_line(&InterpValue::InterpBoolean(false)), "BOOLEAN false");
    assert_eq!(text_line(&InterpValue::InterpString(String::from("x y"))), "x y");
    assert_eq!(text_line(&InterpValue::InterpStruct(12)), "STRUCT 12");
    assert_eq!(text_line(&InterpValue::InterpFunction { id: 305, closure_id: 7 }), "FUNCTION 305");
    assert!(matches!(print_line(&InterpValue::InterpNumber(9)), Line::Number(9)));
    assert!(print(&Vec::new()).is_empty());
    let lines = print(&vec![InterpValue::InterpBoolean(true)]);
    assert_eq!(lines.len(), 1);
    assert!(matches!(&lines[0], Line::Text(text) if text == "BOOLEAN true"));
}

#[test]
fn declarations_are_numbered_in_their_order() {
    let evaluation = run("a :: () { }; b :: () { }; s :: { }; t :: { }; print(a, b, s, t);");
    assert_eq!(lines(&evaluation), vec!["FUNCTION 0", "FUNCTION 1", "STRUCT 0", "STRUCT 1"]);
    match run("f :: () { }; f;").result {
        Ok(InterpValue::InterpFunction { id, closure_id }) => {
            assert_eq!(id, 0);
            assert_eq!(closure_id, 2);
        }
        other => panic!("{:?}", other),
    }
}

#[test]
fn function_binds_its_arguments_and_gives_its_last_value() {
    let evaluation = run("add :: (a, b) { print(a); a + b; }; add(1, 2);");
    assert_eq!(number(&evaluation), 3.0);
    assert_eq!(lines(&evaluation), vec!["1"]);
}

#[test]
fn arguments_are_evaluated_before_the_call() {
    let evaluation = run("f :: (a) { }; f(missing);");
    assert_eq!(error(&evaluation), "Unable to find variable missing");
    let evaluation = run("nothing(missing);");
    assert_eq!(error(&evaluation), "Unable to find variable missing");
}

#[test]
fn each_call_gets_a_new_scope() {
    let evaluation = run("f :: () { x = 1; print(x); }; f(); print(x);");
    assert_eq!(lines(&evaluation), vec!["1"]);
    assert_eq!(error(&evaluation), "Unable to find variable x");
    let evaluation = run("f :: (a) { if(a) { x = 1; }; print(x); }; f(1);");
    assert_eq!(error(&evaluation), "Unable to find variable x");
}

#[test]
fn function_does_not_see_the_scope_of_its_caller() {
    let evaluation = run("f :: () { print(hidden); }; { hidden = 1; f(); }");
    assert_eq!(error(&evaluation), "Unable to find variable hidden");
}

#[test]
fn unknown_function_is_named() {
    assert_eq!(error(&run("nothing();")), "Unable to find function nothing");
    assert_eq!(error(&run("x = 1; x();")), "Unable to find function x");
}

#[test]
fn wrong_number_of_arguments_stops_the_evaluation() {
    assert!(matches!(run("f :: (a) { }; f();").result, Err(Halt::ArityMismatch)));
    assert!(matches!(run("f :: () { }; f(1);").result, Err(Halt::ArityMismatch)));
}

#[test]
fn declared_argument_must_be_a_name() {
    let declaration = AstFunctionDeclaration {
        arguments: vec![AstNodeType::NumberValue(Box::new(AstNumberValue {
            value: String::from("1"),
        }))],
        body: AstBlock::new(),
    };
    let alias = AstAlias {
        to: AstVariable { name: String::from("f") },
        from: AstNodeType::FunctionDeclaration(Box::new(declaration)),
    };
    let call = AstFunctionCall { name: String::from("f"), arguments: Vec::new(), body: None };
    let mut block = AstBlock::new();
    block.statements.push(AstNodeType::Alias(Box::new(alias)));
    block.statements.push(AstNodeType::FunctionCall(Box::new(call)));
    let ast = Ast { root: AstNodeType::Block(Box::new(block)) };
    assert_eq!(error(&run_tree(&ast, STACK_SIZE)), "Invalid argument expression");
}

#[test]
fn stack_takes_frames_up_to_its_limit() {
    assert_eq!(STACK_SIZE, 10);
    assert!(matches!(run_within("", 0).result, Ok(InterpValue::InterpVoid)));
    assert_eq!(number(&run_within("1;", 0)), 1.0);
    assert_eq!(error(&run_within("{ 1; }", 0)), "Stack overflow!");
    assert_eq!(number(&run_within("{ 1; }", 1)), 1.0);
    assert_eq!(error(&run_within("{ { 1; } }", 1)), "Stack overflow!");
    assert_eq!(error(&run_within("f :: () { 1; }; f();", 0)), "Stack overflow!");
    assert_eq!(error(&run_within("f :: () { 1; }; f();", 1)), "Stack overflow!");
    assert_eq!(number(&run_within("f :: () { 1; }; f();", 2)), 1.0);
}

#[test]
fn recursion_ends_in_a_stack_overflow() {
    let evaluation = run("f :: (n) { print(n); f(n + 1); }; f(0);");
    assert_eq!(error(&evaluation), "Stack overflow!");
    assert_eq!(lines(&evaluation), vec!["0", "1", "2", "3", "4"]);
}

#[test]
fn self_call_overflows_with_arguments_and_in_blocks() {
    assert_eq!(error(&run("f :: (a, b) { f(b, a); }; f(1, 2);")), "Stack overflow!");
    assert_eq!(error(&run("f :: (a) { { { f(a); } } }; f(\"x\");")), "Stack overflow!");
    assert_eq!(error(&run_within("f :: () { f(); }; f();", 100)), "Stack overflow!");
}

#[test]
fn name_keeps_its_value_behind_a_block_in_a_function() {
    let evaluation = run("f :: (a) { x = 1; { x = 2; y = 3; }; print(x); }; f(0);");
    assert!(evaluation.result.is_ok(), "{:?}", evaluation.result);
    assert_eq!(lines(&evaluation), vec!["1"]);
}

#[test]
fn recursion_with_an_end_gives_its_value() {
    let evaluation = run("f :: (n) { print(n); if(n) { f(n - 1); }; }; f(2);");
    assert!(evaluation.result.is_ok(), "{:?}", evaluation.result);
    assert_eq!(lines(&evaluation), vec!["2", "1", "0"]);
}

#[test]
fn arguments_live_in_the_closure_of_the_function() {
    let evaluation = run("f :: (n) { if(n) { f(n - 1); }; print(n); }; f(2);");
    assert!(evaluation.result.is_ok(), "{:?}", evaluation.result);
    assert_eq!(lines(&evaluation), vec!["0", "0", "0"]);
}

#[test]
fn values_count_as_true_only_as_numbers_other_than_zero() {
    assert!(InterpValue::InterpNumber(1.0f64.to_bits()).evals_to_true());
    assert!(InterpValue::InterpNumber(f64::NAN.to_bits()).evals_to_true());
    assert!(!InterpValue::InterpNumber(0.0f64.to_bits()).evals_to_true());
    assert!(!InterpValue::InterpNumber((-0.0f64).to_bits()).evals_to_true());
    assert_eq!(NEGATIVE_ZERO, (-0.0f64).to_bits());
    assert!(!InterpValue::InterpVoid.evals_to_true());
    assert!(!InterpValue::InterpBoolean(true).evals_to_true());
    assert!(!InterpValue::InterpString(String::from("1")).evals_to_true());
    assert!(!InterpValue::InterpStruct(1).evals_to_true());
    assert!(!InterpValue::InterpFunction { id: 1, closure_id: 1 }.evals_to_true());
}

#[test]
fn arithmetic_keeps_the_last_answer() {
    let mut arithmetic = Arithmetic::new();
    let one = NumberQuery::Literal(String::from("1"));
    let sum = NumberQuery::Operation { operator: AstOperator::Add, lhs: 1, rhs: 2 };
    assert_eq!(arithmetic.lookup(&one), None);
    arithmetic.learn(one.clone(), 10);
    arithmetic.learn(sum.clone(), 20);
    assert_eq!(arithmetic.lookup(&one), Some(10));
    assert_eq!(arithmetic.lookup(&sum), Some(20));
    arithmetic.learn(one.clone(), 30);
    assert_eq!(arithmetic.lookup(&one), Some(30));
    assert_eq!(arithmetic.lookup(&NumberQuery::Literal(String::from("2"))), None);
    let fact = NumberFact { query: one, value: 1 };
    assert_eq!(fact.value, 1);
}

#[test]
fn questions_are_the_same_by_their_parts() {
    let a = NumberQuery::Operation { operator: AstOperator::Add, lhs: 1, rhs: 2 };
    assert!(a.same(&a.clone()));
    assert!(!a.same(&NumberQuery::Operation { operator: AstOperator::Sub, lhs: 1, rhs: 2 }));
    assert!(!a.same(&NumberQuery::Operation { operator: AstOperator::Add, lhs: 2, rhs: 1 }));
    assert!(!a.same(&NumberQuery::Literal(String::from("1"))));
    assert!(NumberQuery::Literal(String::from("1")).same(&NumberQuery::Literal(String::from("1"))));
    assert!(!NumberQuery::Literal(String::from("1")).same(&NumberQuery::Literal(String::from("2"))));
}

#[test]
fn operation_on_two_numbers_is_looked_up() {
    let mut arithmetic = Arithmetic::new();
    match apply_operation(
        InterpValue::InterpNumber(1),
        InterpValue::InterpNumber(2),
        AstOperator::Mod,
        &arithmetic,
    ) {
        Err(Halt::Pending(NumberQuery::Operation { operator, lhs, rhs })) => {
            assert_eq!((operator, lhs, rhs), (AstOperator::Mod, 1, 2));
        }
        other => panic!("{:?}", other),
    }
    arithmetic.learn(NumberQuery::Operation { operator: AstOperator::Mod, lhs: 1, rhs: 2 }, 5);
    assert!(matches!(
        apply_operation(
            InterpValue::InterpNumber(1),
            InterpValue::InterpNumber(2),
            AstOperator::Mod,
            &arithmetic
        ),
        Ok(InterpValue::InterpNumber(5))
    ));
    assert!(matches!(
        apply_number_number_operation(1, 2, AstOperator::Mod, &arithmetic),
        Ok(InterpValue::InterpNumber(5))
    ));
    assert!(matches!(
        apply_number_number_operation(2, 1, AstOperator::Mod, &arithmetic),
        Err(Halt::Pending(_))
    ));
}

#[test]
fn operation_on_other_values_names_their_kinds() {
    let arithmetic = Arithmetic::new();
    match apply_operation(
        InterpValue::InterpVoid,
        InterpValue::InterpBoolean(true),
        AstOperator::Add,
        &arithmetic,
    ) {
        Err(Halt::Error(e)) => assert_eq!(
            e.get_description(),
            "Operator not yet implemented. lhs: InterpVoid, rhs: InterpBoolean"
        ),
        other => panic!("{:?}", other),
    }
    assert_eq!(kind_of(&InterpValue::InterpNumber(0)), "InterpNumber");
    assert_eq!(kind_of(&InterpValue::InterpString(String::new())), "InterpString");
    assert_eq!(kind_of(&InterpValue::InterpStruct(0)), "InterpStruct");
    assert_eq!(kind_of(&InterpValue::InterpFunction { id: 0, closure_id: 0 }), "InterpFunction");
}

#[test]
fn interp_error_keeps_its_reason() {
    let e = InterpError::new(String::from("why"));
    assert_eq!(e.get_description(), "why");
    match failed::<InterpValue>("because") {
        Err(Halt::Error(e)) => assert_eq!(e.get_description(), "because"),
        other => panic!("{:?}", other),
    }
}

#[test]
fn values_are_copied_with_their_parts() {
    let text = InterpValue::InterpString(String::from("abc"));
    match text.clone() {
        InterpValue::InterpString(copy) => assert_eq!(copy, "abc"),
        other => panic!("{:?}", other),
    }
    assert!(matches!(
        InterpValue::InterpFunction { id: 3, closure_id: 4 }.clone(),
        InterpValue::InterpFunction { id: 3, closure_id: 4 }
    ));
}
