use leg_script::file_info::CodePoint;
use leg_script::text::{decimal_text, is_word, joined, to_chars};
use leg_script::tokenizer::{tokenize, Token, TokenType, TokenizationError};

fn kinds(tokens: &Vec<Token>) -> Vec<TokenType> {
    tokens.iter().map(|t| t.get_type()).collect()
}

fn texts(tokens: &Vec<Token>) -> Vec<String> {
    tokens.iter().map(|t| t.get_text()).collect()
}

fn failure(source: &str) -> TokenizationError {
    match tokenize(source) {
        Ok(tokens) => panic!("tokens: {:?}", tokens),
        Err(e) => e,
    }
}

fn span(line_from: usize, column_from: usize, line_to: usize, column_to: usize) -> CodePoint {
    CodePoint {
        line_number_from: line_from,
        line_number_to: line_to,
        column_number_from: column_from,
        column_number_to: column_to,
    }
}

#[test]
fn tokenizes_the_hello_script() {
    let tokens = tokenize("message :String :: \"Hello \\\" World\"; print(message);").unwrap();
    assert_eq!(
        kinds(&tokens),
        vec![
            TokenType::Alphanumeric,
            TokenType::Symbol,
            TokenType::Alphanumeric,
            TokenType::StaticAssignment,
            TokenType::StaticString,
            TokenType::EndOfStatement,
            TokenType::Alphanumeric,
            TokenType::OpenParenthesis,
            TokenType::Alphanumeric,
            TokenType::CloseParenthesis,
            TokenType::EndOfStatement,
        ]
    );
    assert_eq!(
        texts(&tokens),
        vec![
            "message",
            ":",
            "String",
            "::",
            "\"Hello \\\" World\"",
            ";",
            "print",
            "(",
            "message",
            ")",
            ";"
        ]
    );
}

#[test]
fn empty_source_has_no_tokens() {
    assert!(tokenize("").unwrap().is_empty());
    assert!(tokenize(" \t\r\n ").unwrap().is_empty());
}

#[test]
fn single_character_tokens() {
    let tokens = tokenize("(){};,.").unwrap();
    assert_eq!(
        kinds(&tokens),
        vec![
            TokenType::OpenParenthesis,
            TokenType::CloseParenthesis,
            TokenType::OpenBlock,
            TokenType::CloseBlock,
            TokenType::EndOfStatement,
            TokenType::ParameterDivider,
            TokenType::SubElement,
        ]
    );
    assert_eq!(texts(&tokens), vec!["(", ")", "{", "}", ";", ",", "."]);
}

#[test]
fn every_operator_is_one_token() {
    let tokens = tokenize("+ - * / % ^").unwrap();
    assert_eq!(kinds(&tokens), vec![TokenType::Operator; 6]);
    assert_eq!(texts(&tokens), vec!["+", "-", "*", "/", "%", "^"]);
}

#[test]
fn slash_at_the_end_is_an_operator() {
    let tokens = tokenize("1 /").unwrap();
    assert_eq!(kinds(&tokens), vec![TokenType::Numeric, TokenType::Operator]);
    assert_eq!(texts(&tokens), vec!["1", "/"]);
}

#[test]
fn number_takes_digits_and_dots() {
    let tokens = tokenize("12.5 1.2.3 7a").unwrap();
    assert_eq!(
        kinds(&tokens),
        vec![
            TokenType::Numeric,
            TokenType::Numeric,
            TokenType::Numeric,
            TokenType::Alphanumeric
        ]
    );
    assert_eq!(texts(&tokens), vec!["12.5", "1.2.3", "7", "a"]);
}

#[test]
fn word_takes_letters_digits_and_underscores() {
    let tokens = tokenize("_a1 B_2c+x").unwrap();
    assert_eq!(
        kinds(&tokens),
        vec![
            TokenType::Alphanumeric,
            TokenType::Alphanumeric,
            TokenType::Operator,
            TokenType::Alphanumeric
        ]
    );
    assert_eq!(texts(&tokens), vec!["_a1", "B_2c", "+", "x"]);
}

#[test]
fn escaped_quote_does_not_end_the_string() {
    let tokens = tokenize("\"a\\\"b\"").unwrap();
    assert_eq!(kinds(&tokens), vec![TokenType::StaticString]);
    assert_eq!(texts(&tokens), vec!["\"a\\\"b\""]);
}

#[test]
fn escaped_backslash_is_followed_by_the_closing_quote() {
    let tokens = tokenize("\"a\\\\\" x").unwrap();
    assert_eq!(kinds(&tokens), vec![TokenType::StaticString, TokenType::Alphanumeric]);
    assert_eq!(texts(&tokens), vec!["\"a\\\\\"", "x"]);
}

#[test]
fn string_ends_at_its_first_quote_without_a_backslash() {
    let tokens = tokenize("\"a\\\"b\\\\\\\"c\\n\" \"d\"").unwrap();
    assert_eq!(kinds(&tokens), vec![TokenType::StaticString, TokenType::StaticString]);
    assert_eq!(texts(&tokens), vec!["\"a\\\"b\\\\\\\"c\\n\"", "\"d\""]);
}

#[test]
fn string_may_hold_line_feeds() {
    let tokens = tokenize("\"a\nb\" c").unwrap();
    assert_eq!(texts(&tokens), vec!["\"a\nb\"", "c"]);
    assert_eq!(tokens[0].get_file_info(), span(1, 1, 2, 2));
    assert_eq!(tokens[1].get_file_info(), span(2, 4, 2, 4));
}

#[test]
fn comment_runs_to_the_line_feed() {
    let tokens = tokenize("a // b c\nd").unwrap();
    assert_eq!(
        kinds(&tokens),
        vec![TokenType::Alphanumeric, TokenType::Comment, TokenType::Alphanumeric]
    );
    assert_eq!(texts(&tokens), vec!["a", "// b c", "d"]);
}

#[test]
fn assignment_tokens() {
    let tokens = tokenize("a :: b := c = d").unwrap();
    assert_eq!(
        kinds(&tokens),
        vec![
            TokenType::Alphanumeric,
            TokenType::StaticAssignment,
            TokenType::Alphanumeric,
            TokenType::VariableAssignment,
            TokenType::Alphanumeric,
            TokenType::VariableAssignment,
            TokenType::Alphanumeric,
        ]
    );
    assert_eq!(texts(&tokens), vec!["a", "::", "b", ":=", "c", "=", "d"]);
}

#[test]
fn equals_is_a_token_of_one_character() {
    let tight = tokenize("x=1;").unwrap();
    let loose = tokenize("x \t= \n1 ;").unwrap();
    let expected = vec![
        TokenType::Alphanumeric,
        TokenType::VariableAssignment,
        TokenType::Numeric,
        TokenType::EndOfStatement,
    ];
    assert_eq!(kinds(&tight), expected);
    assert_eq!(kinds(&loose), expected);
    assert_eq!(texts(&tight), vec!["x", "=", "1", ";"]);
    assert_eq!(texts(&loose), vec!["x", "=", "1", ";"]);
    assert_eq!(tight[1].get_file_info(), span(1, 2, 1, 2));
}

#[test]
fn unknown_character_behind_equals_fails() {
    let e = failure("=@");
    assert_eq!(e.get_description(), "Invalid end of input: @");
    assert_eq!(e.get_token().get_text(), "@");
    let tokens = tokenize("==;").unwrap();
    assert_eq!(texts(&tokens), vec!["=", "=", ";"]);
    let e = failure("==");
    assert_eq!(e.get_description(), "Invalid end of input after =");
}

#[test]
fn type_symbol_leaves_the_letter() {
    let tokens = tokenize("x :int").unwrap();
    assert_eq!(
        kinds(&tokens),
        vec![TokenType::Alphanumeric, TokenType::Symbol, TokenType::Alphanumeric]
    );
    assert_eq!(texts(&tokens), vec!["x", ":", "int"]);
}

#[test]
fn spans_follow_lines_and_columns() {
    let tokens = tokenize("ab\n  cd e").unwrap();
    assert_eq!(tokens[0].get_file_info(), span(1, 1, 1, 2));
    assert_eq!(tokens[1].get_file_info(), span(2, 3, 2, 4));
    assert_eq!(tokens[2].get_file_info(), span(2, 6, 2, 6));
    assert!(!tokens[0].is_null());
}

#[test]
fn unterminated_string_fails() {
    let e = failure("x \"abc");
    assert_eq!(e.get_description(), "Invalid end of input for \"string\"");
    assert_eq!(e.get_token().get_type(), TokenType::StaticString);
    assert_eq!(e.get_token().get_text(), "\"abc");
    assert_eq!(e.get_token().get_file_info(), span(1, 3, 1, 3));
}

#[test]
fn backslash_at_the_end_of_a_string_fails() {
    let e = failure("\"abc\\");
    assert_eq!(e.get_description(), "Invalid end of input for \"string\"");
    assert_eq!(e.get_token().get_text(), "\"abc\\");
}

#[test]
fn unterminated_comment_fails() {
    let e = failure("a // note");
    assert_eq!(e.get_description(), "Invalid end of input for // comment");
    assert_eq!(e.get_token().get_type(), TokenType::Comment);
    assert_eq!(e.get_token().get_text(), "// note");
}

#[test]
fn colon_at_the_end_fails() {
    let e = failure("x :");
    assert_eq!(e.get_description(), "Invalid end of input after :");
    assert_eq!(e.get_token().get_type(), TokenType::Undefined);
    assert_eq!(e.get_token().get_text(), ":");
}

#[test]
fn colon_before_another_character_fails() {
    let e = failure("x : y");
    assert_eq!(e.get_description(), "Invalid character preceding (:):  ");
    let e = failure("x :1");
    assert_eq!(e.get_description(), "Invalid character preceding (:): 1");
    let e = failure("x :_a");
    assert_eq!(e.get_description(), "Invalid character preceding (:): _");
}

#[test]
fn equals_at_the_end_fails() {
    let e = failure("x =");
    assert_eq!(e.get_description(), "Invalid end of input after =");
    assert_eq!(e.get_token().get_text(), "=");
    assert_eq!(e.get_token().get_file_info(), span(1, 3, 1, 3));
}

#[test]
fn unknown_character_fails() {
    let e = failure("a\n #");
    assert_eq!(e.get_description(), "Invalid end of input: #");
    assert_eq!(e.get_token().get_text(), "#");
    assert_eq!(e.get_token().get_file_info(), span(2, 2, 2, 2));
    let e = failure("é");
    assert_eq!(e.get_description(), "Invalid end of input: é");
}

#[test]
fn first_failure_wins() {
    let e = failure("# \"abc");
    assert_eq!(e.get_description(), "Invalid end of input: #");
}

#[test]
fn more_whitespace_between_tokens_keeps_kinds_and_texts() {
    let tight = tokenize("f::(a,b){print(a+b*2);};").unwrap();
    let loose = tokenize(" f\t::\n( a ,\r\nb )\n{\n  print ( a + b * 2 ) ;\n}\n;\n").unwrap();
    assert_eq!(kinds(&tight), kinds(&loose));
    assert_eq!(texts(&tight), texts(&loose));
    assert_ne!(tight[1].get_file_info(), loose[1].get_file_info());
}

#[test]
fn whitespace_behind_a_type_symbol_is_refused() {
    assert!(tokenize("x :int").is_ok());
    assert!(tokenize("x : int").is_err());
}

#[test]
fn space_behind_a_comment_joins_the_comment() {
    let before = tokenize("//a\nb").unwrap();
    let spaced = tokenize("//a \nb").unwrap();
    let fed = tokenize("//a\n\nb").unwrap();
    assert_eq!(texts(&before), vec!["//a", "b"]);
    assert_eq!(texts(&spaced), vec!["//a ", "b"]);
    assert_eq!(texts(&fed), texts(&before));
}

#[test]
fn new_token_is_undefined_and_empty() {
    let token = Token::new();
    assert_eq!(token.get_type(), TokenType::Undefined);
    assert_eq!(token.get_text(), "");
    assert_eq!(token.text(), "");
    assert!(!token.is_null());
    assert_eq!(token.get_file_info(), span(0, 0, 0, 0));
}

#[test]
fn null_token_is_null() {
    let token = Token::null();
    assert!(token.is_null());
    assert_eq!(token.get_type(), TokenType::Undefined);
    assert_eq!(token.get_text(), "");
}

#[test]
fn typed_token_has_its_type() {
    let token = Token::typed(TokenType::Operator);
    assert_eq!(token.get_type(), TokenType::Operator);
    assert_eq!(token.get_text(), "");
    assert!(!token.is_null());
    let copy = token.clone();
    assert_eq!(copy.get_type(), TokenType::Operator);
}

#[test]
fn tokenization_error_keeps_token_and_reason() {
    let e = TokenizationError::new(Token::typed(TokenType::Comment), String::from("why"));
    assert_eq!(e.get_description(), "why");
    assert_eq!(e.get_token().get_type(), TokenType::Comment);
}

#[test]
fn characters_of_a_text() {
    assert_eq!(to_chars("aé\n"), vec!['a', 'é', '\n']);
    assert!(to_chars("").is_empty());
}

#[test]
fn decimal_digits_of_a_number() {
    assert_eq!(decimal_text(0), "0");
    assert_eq!(decimal_text(7), "7");
    assert_eq!(decimal_text(10), "10");
    assert_eq!(decimal_text(12345), "12345");
    assert_eq!(decimal_text(9007199254740993), "9007199254740993");
}

#[test]
fn joined_texts_and_words() {
    assert_eq!(joined("ab", "cd"), "abcd");
    assert_eq!(joined("", ""), "");
    assert!(is_word(&String::from("if"), "if"));
    assert!(!is_word(&String::from("iff"), "if"));
}
