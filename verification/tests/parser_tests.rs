use leg_script::parser::{
    is_number_text, operator_from_text, parse, Ast, AstNodeType, AstOperator, Parser,
    ParsingError,
};
use leg_script::tokenizer::{tokenize, Token, TokenType};

fn tree(source: &str) -> Ast {
    parse(&tokenize(source).unwrap()).unwrap()
}

fn statements(source: &str) -> Vec<AstNodeType> {
    match tree(source).root {
        AstNodeType::Block(block) => block.statements,
        other => panic!("no block: {:?}", other),
    }
}

fn refusal(source: &str) -> ParsingError {
    match parse(&tokenize(source).unwrap()) {
        Ok(ast) => panic!("tree: {:?}", ast),
        Err(e) => e,
    }
}

fn shape(node: &AstNodeType) -> String {
    match node {
        AstNodeType::Block(block) => {
            let inner: Vec<String> = block.statements.iter().map(shape).collect();
            format!("{{{}}}", inner.join(" "))
        }
        AstNodeType::OperatorCall(call) => {
            format!("({} {:?} {})", shape(&call.lhs), call.operator, shape(&call.rhs))
        }
        AstNodeType::FunctionCall(call) => {
            let inner: Vec<String> = call.arguments.iter().map(shape).collect();
            let body = match &call.body {
                Some(block) => {
                    let inner: Vec<String> = block.statements.iter().map(shape).collect();
                    format!("{{{}}}", inner.join(" "))
                }
                None => String::new(),
            };
            format!("{}({}){}", call.name, inner.join(","), body)
        }
        AstNodeType::StringValue(string) => format!("{:?}", string.value),
        AstNodeType::NumberValue(number) => number.value.clone(),
        AstNodeType::FunctionDeclaration(function) => {
            let names: Vec<String> = function.arguments.iter().map(shape).collect();
            let inner: Vec<String> = function.body.statements.iter().map(shape).collect();
            format!("fn({}){{{}}}", names.join(","), inner.join(" "))
        }
        AstNodeType::StructDeclaration(structure) => {
            format!("struct({:?};{:?})", structure.fields, structure.types)
        }
        AstNodeType::Variable(variable) => variable.name.clone(),
        AstNodeType::Assignment(assignment) => {
            format!("{} = {}", assignment.to.name, shape(&assignment.from))
        }
        AstNodeType::Alias(alias) => format!("{} :: {}", alias.to.name, shape(&alias.from)),
        AstNodeType::NullValue(_) => String::from("null"),
    }
}

fn shapes(source: &str) -> Vec<String> {
    statements(source).iter().map(shape).collect()
}

#[test]
fn hello_script_is_an_alias_and_a_call() {
    let nodes = statements("message :String :: \"Hello \\\" World\"; print(message);");
    assert_eq!(nodes.len(), 2);
    match &nodes[0] {
        AstNodeType::Alias(alias) => {
            assert_eq!(alias.to.name, "message");
            match &alias.from {
                AstNodeType::StringValue(string) => assert_eq!(string.value, "Hello \\\" World"),
                other => panic!("{:?}", other),
            }
        }
        other => panic!("{:?}", other),
    }
    match &nodes[1] {
        AstNodeType::FunctionCall(call) => {
            assert_eq!(call.name, "print");
            assert_eq!(call.arguments.len(), 1);
            assert!(call.body.is_none());
            assert!(matches!(&call.arguments[0], AstNodeType::Variable(v) if v.name == "message"));
        }
        other => panic!("{:?}", other),
    }
}

#[test]
fn empty_token_list_is_an_empty_block() {
    assert!(statements("").is_empty());
}

#[test]
fn tighter_operator_goes_to_the_right_operand() {
    assert_eq!(shapes("1 + 2 * 3;"), vec!["(1 Add (2 Mult 3))"]);
    assert_eq!(shapes("1 * 2 + 3;"), vec!["((1 Mult 2) Add 3)"]);
    assert_eq!(shapes("1 + 2 * 3 ^ 4;"), vec!["(1 Add (2 Mult (3 Pow 4)))"]);
    assert_eq!(shapes("1 + 2 ^ 3 * 4;"), vec!["(1 Add ((2 Pow 3) Mult 4))"]);
    assert_eq!(shapes("1 + 2 * 3 + 4;"), vec!["((1 Add (2 Mult 3)) Add 4)"]);
}

#[test]
fn equal_operators_group_to_the_left() {
    assert_eq!(shapes("2 ^ 3 ^ 2;"), vec!["((2 Pow 3) Pow 2)"]);
    assert_eq!(shapes("a - b - c;"), vec!["((a Sub b) Sub c)"]);
    assert_eq!(shapes("a / b % c * d;"), vec!["(((a Div b) Mod c) Mult d)"]);
}

#[test]
fn long_chain_without_a_tighter_operator_groups_to_the_left() {
    assert_eq!(
        shapes("a ^ b * c / d % e + f - g;"),
        vec!["((((((a Pow b) Mult c) Div d) Mod e) Add f) Sub g)"]
    );
    assert_eq!(shapes("a + b + c + d + e;"), vec!["((((a Add b) Add c) Add d) Add e)"]);
}

#[test]
fn brackets_bind_tightest() {
    assert_eq!(shapes("(1 + 2) * 3;"), vec!["((1 Add 2) Mult 3)"]);
    assert_eq!(shapes("2 * (3 + (4 - 1));"), vec!["(2 Mult (3 Add (4 Sub 1)))"]);
}

#[test]
fn assignment_and_alias() {
    assert_eq!(shapes("x = 1 + 2;"), vec!["x = (1 Add 2)"]);
    assert_eq!(shapes("x := y;"), vec!["x = y"]);
    assert_eq!(shapes("x :int = 3;"), vec!["x = 3"]);
    assert_eq!(shapes("x :: 4;"), vec!["x :: 4"]);
    assert_eq!(shapes("x :String :: \"s\";"), vec!["x :: \"s\""]);
}

#[test]
fn function_declaration_keeps_its_arguments() {
    assert_eq!(shapes("f :: () { };"), vec!["f :: fn(){}"]);
    assert_eq!(shapes("f :: (a) { a; };"), vec!["f :: fn(a){a}"]);
    assert_eq!(shapes("f :: (a, b,) { print(a, b); };"), vec!["f :: fn(a,b){print(a,b)}"]);
}

#[test]
fn struct_declaration_keeps_fields_and_types_in_order() {
    let nodes = statements("point :: { x :int y :String };");
    match &nodes[0] {
        AstNodeType::Alias(alias) => match &alias.from {
            AstNodeType::StructDeclaration(structure) => {
                assert_eq!(structure.fields, vec!["x", "y"]);
                assert_eq!(structure.types, vec!["int", "String"]);
            }
            other => panic!("{:?}", other),
        },
        other => panic!("{:?}", other),
    }
    assert_eq!(shapes("e :: { };"), vec!["e :: struct([];[])"]);
}

#[test]
fn call_with_arguments_and_block() {
    assert_eq!(shapes("f();"), vec!["f()"]);
    assert_eq!(shapes("f(1, x + 2, \"s\");"), vec!["f(1,(x Add 2),\"s\")"]);
    assert_eq!(shapes("if(x) { print(1); };"), vec!["if(x){print(1)}"]);
    assert_eq!(shapes("f(1) + 2;"), vec!["(f(1) Add 2)"]);
}

#[test]
fn blocks_comments_and_empty_statements() {
    assert_eq!(shapes("{ x = 1; { x = 2; }; print(x); }"), vec!["{x = 1 {x = 2} null print(x)}"]);
    assert_eq!(shapes(";;"), vec!["null", "null"]);
    assert_eq!(shapes("// first\nx; // second\ny;\n"), vec!["x", "y"]);
}

#[test]
fn closing_bracket_ends_the_outermost_block() {
    assert_eq!(shapes("x; } y;"), vec!["x"]);
}

#[test]
fn statement_needs_its_semicolon() {
    let e = refusal("x y;");
    assert_eq!(e.get_description(), "Statements must end with a ; token");
    assert_eq!(e.get_token().get_text(), "y");
    let e = refusal("x");
    assert_eq!(e.get_description(), "Unexpected end of stream when parsing a variable");
    let e = refusal("1");
    assert_eq!(e.get_description(), "Unexpected end of stream when parsing statement");
    assert_eq!(e.get_token().get_text(), "1");
}

#[test]
fn malformed_number_is_refused() {
    let e = refusal("1.2.3;");
    assert_eq!(e.get_description(), "Failed to parse number: 1.2.3");
    assert_eq!(e.get_token().get_text(), "1.2.3");
    assert_eq!(e.get_token().get_type(), TokenType::Numeric);
    let e = refusal("x = 1..;");
    assert_eq!(e.get_description(), "Failed to parse number: 1..");
}

#[test]
fn missing_closing_bracket_is_refused() {
    let e = refusal("(1 + 2;");
    assert_eq!(e.get_description(), "Missing closing parenthesis");
    assert_eq!(e.get_token().get_text(), "(");
    let e = refusal("(");
    assert_eq!(e.get_description(), "Missing closing parenthesis");
}

#[test]
fn token_out_of_place_is_refused() {
    let e = refusal(") ;");
    assert_eq!(e.get_description(), "Invalid token in expression");
    assert_eq!(e.get_token().get_text(), ")");
    let e = refusal("x = ;");
    assert_eq!(e.get_description(), "Invalid token in expression");
    assert_eq!(e.get_token().get_text(), ";");
    let e = refusal("x :: ;");
    assert_eq!(e.get_description(), "Invalid token in expression");
    let e = refusal("1 + ;");
    assert_eq!(e.get_description(), "Invalid token in expression");
    let e = refusal("x :int y;");
    assert_eq!(e.get_description(), "Unexpected character when parsing an assignment");
    assert_eq!(e.get_token().get_text(), "y");
}

#[test]
fn operator_without_right_operand_is_refused() {
    let e = refusal("1 +");
    assert_eq!(e.get_description(), "Missing rhs operand");
    assert_eq!(e.get_token().get_text(), "+");
}

#[test]
fn declaration_arguments_must_be_names() {
    let e = refusal("f :: (1) { };");
    assert_eq!(e.get_description(), "Unexpected character when parsing function declaration");
    assert_eq!(e.get_token().get_text(), "1");
    let e = refusal("f :: (a b) { };");
    assert_eq!(
        e.get_description(),
        "Unexpected character when parsing function declaration arguments"
    );
    assert_eq!(e.get_token().get_text(), "a");
    let e = refusal("f :: (a) x;");
    assert_eq!(e.get_description(), "Unexpected character when parsing function declaration");
    let e = refusal("f :: (a");
    assert_eq!(e.get_description(), "Unexpected character when parsing function declaration arguments");
    let e = refusal("f :: (a,");
    assert_eq!(e.get_description(), "Unexpected end of stream when parsing function declaration");
    let e = refusal("f :: (a)");
    assert_eq!(e.get_description(), "Unexpected end of stream when parsing function declaration");
}

#[test]
fn struct_fields_must_be_name_symbol_name() {
    let e = refusal("s :: { 1 };");
    assert_eq!(
        e.get_description(),
        "Unexpected character when parsing struct declaration, Alphanumeric expected"
    );
    let e = refusal("s :: { x y };");
    assert_eq!(
        e.get_description(),
        "Unexpected character when parsing struct declaration, Symbol expected"
    );
    let e = refusal("s :: { x :int");
    assert_eq!(e.get_description(), "Unexpected end of stream when parsing statement");
}

#[test]
fn call_arguments_are_divided_by_commas() {
    let e = refusal("f(1 2);");
    assert_eq!(e.get_description(), "Unexpected character when parsing function call arguments");
    assert_eq!(e.get_token().get_text(), "1");
    let e = refusal("f(1,");
    assert_eq!(e.get_description(), "Unexpected end of stream when parsing statement");
}

#[test]
fn nested_block_must_be_closed() {
    let e = refusal("{ x;");
    assert_eq!(e.get_description(), "Unexpected end of stream when parsing a block");
    assert_eq!(e.get_token().get_text(), ";");
    let e = refusal("if(x) {");
    assert_eq!(e.get_description(), "Unexpected end of stream when parsing a block");
}

#[test]
fn comment_inside_an_expression_is_refused() {
    let e = refusal("x = // c\n 1;");
    assert_eq!(e.get_description(), "Invalid token in expression");
    assert_eq!(e.get_token().get_type(), TokenType::Comment);
}

#[test]
fn empty_string_token_is_refused() {
    let tokens = vec![Token::typed(TokenType::StaticString), Token::typed(TokenType::EndOfStatement)];
    let e = parse(&tokens).unwrap_err();
    assert_eq!(e.get_description(), "Invalid string literal");
}

#[test]
fn operator_token_without_text_is_refused() {
    let tokens = vec![
        Token::typed(TokenType::Alphanumeric),
        Token::typed(TokenType::Operator),
        Token::typed(TokenType::Alphanumeric),
        Token::typed(TokenType::EndOfStatement),
    ];
    let e = parse(&tokens).unwrap_err();
    assert_eq!(e.get_description(), "Invalid operator: ");
    assert_eq!(e.get_token().get_type(), TokenType::Operator);
}

#[test]
fn number_literals() {
    assert!(is_number_text("0"));
    assert!(is_number_text("12.5"));
    assert!(is_number_text("7."));
    assert!(!is_number_text(""));
    assert!(!is_number_text(".5"));
    assert!(!is_number_text("1.2.3"));
    assert!(!is_number_text("1e5"));
    assert!(!is_number_text("-1"));
}

#[test]
fn operators_by_text_and_token() {
    assert_eq!(operator_from_text("+"), Some(AstOperator::Add));
    assert_eq!(operator_from_text("-"), Some(AstOperator::Sub));
    assert_eq!(operator_from_text("*"), Some(AstOperator::Mult));
    assert_eq!(operator_from_text("/"), Some(AstOperator::Div));
    assert_eq!(operator_from_text("^"), Some(AstOperator::Pow));
    assert_eq!(operator_from_text("%"), Some(AstOperator::Mod));
    assert_eq!(operator_from_text("++"), None);
    assert_eq!(operator_from_text("a"), None);
    let tokens = tokenize("^").unwrap();
    assert_eq!(AstOperator::from_token(&tokens[0]), AstOperator::Pow);
}

#[test]
fn operator_precedence_levels() {
    assert_eq!(AstOperator::Add.get_precedence(), 1);
    assert_eq!(AstOperator::Sub.get_precedence(), 1);
    assert_eq!(AstOperator::Mult.get_precedence(), 2);
    assert_eq!(AstOperator::Div.get_precedence(), 2);
    assert_eq!(AstOperator::Mod.get_precedence(), 2);
    assert_eq!(AstOperator::Pow.get_precedence(), 3);
    let tokens = tokenize("% ^ +").unwrap();
    let null = Token::null();
    let parser = Parser::new(&tokens, &null);
    assert_eq!(parser.get_operator_precedence(&tokens[0]).unwrap(), 2);
    assert_eq!(parser.get_operator_precedence(&tokens[1]).unwrap(), 3);
    assert_eq!(parser.get_operator_precedence(&tokens[2]).unwrap(), 1);
    let e = parser.get_operator_precedence(&Token::typed(TokenType::Operator)).unwrap_err();
    assert_eq!(e.get_description(), "Invalid operator: ");
}

#[test]
fn parser_reads_token_by_token() {
    let tokens = tokenize("a ;").unwrap();
    let null = Token::null();
    let mut parser = Parser::new(&tokens, &null);
    assert!(parser.current().is_null());
    assert_eq!(parser.peek_type(), Some(TokenType::Alphanumeric));
    assert_eq!(parser.peek_token().unwrap().get_text(), "a");
    assert_eq!(parser.next_token().unwrap().get_text(), "a");
    assert_eq!(parser.current().get_text(), "a");
    assert_eq!(parser.next_token().unwrap().get_text(), ";");
    assert!(parser.next_token().is_none());
    assert!(parser.peek_token().is_none());
    assert_eq!(parser.peek_type(), None);
    assert_eq!(parser.current().get_text(), ";");
}

#[test]
fn parsing_error_keeps_token_and_reason() {
    let e = ParsingError::new(&Token::typed(TokenType::Comment), String::from("why"));
    assert_eq!(e.get_description(), "why");
    assert_eq!(e.get_token().get_type(), TokenType::Comment);
}
