use vstd::prelude::*;
use crate::parser::{AstOperator, Node, ParsingErrorView};
use crate::tokenizer::{is_digit, origin, TokenType, TokenView};

verus! {

/// The token that the parser holds before it has read any.
pub open spec fn null_token() -> TokenView {
    TokenView {
        null_value: true,
        text: Seq::<char>::empty(),
        token_type: TokenType::Undefined,
        file_info: origin(),
    }
}

/// The token read last, when `at` tokens have been read.
pub open spec fn current(tokens: Seq<TokenView>, at: int) -> TokenView {
    if 1 <= at <= tokens.len() {
        tokens[at - 1]
    } else {
        null_token()
    }
}

/// The kind of the token that is read next, when `at` tokens have been read.
pub open spec fn kind_at(tokens: Seq<TokenView>, at: int) -> Option<TokenType> {
    if 0 <= at < tokens.len() {
        Some(tokens[at].token_type)
    } else {
        None
    }
}

/// How many tokens are left to read.
pub open spec fn left(tokens: Seq<TokenView>, at: int) -> nat {
    if at < tokens.len() {
        (tokens.len() - at) as nat
    } else {
        0
    }
}

/// The place behind the next token, or the same place where none is left.
pub open spec fn advance(tokens: Seq<TokenView>, at: int) -> int {
    if at < tokens.len() {
        at + 1
    } else {
        at
    }
}

pub open spec fn failure<T>(token: TokenView, desc: Seq<char>) -> Result<T, ParsingErrorView> {
    Err(ParsingErrorView { token: token, desc: desc })
}

/// The same result, with `by` more tokens read.
pub open spec fn and_read<T>(result: Result<(T, nat), ParsingErrorView>, by: nat) -> Result<
    (T, nat),
    ParsingErrorView,
> {
    match result {
        Ok((value, used)) => Ok((value, used + by)),
        Err(e) => Err(e),
    }
}

/// The list that starts with `first` and goes on with the list that was read
/// behind it, with `by` more tokens read.
pub open spec fn with_first<T>(
    first: T,
    result: Result<(Seq<T>, nat), ParsingErrorView>,
    by: nat,
) -> Result<(Seq<T>, nat), ParsingErrorView> {
    match result {
        Ok((rest, used)) => Ok((seq![first] + rest, used + by)),
        Err(e) => Err(e),
    }
}

/// A number literal: one or more digits, then at most one dot with the digits
/// behind it. These are the texts of digits and dots that denote a number.
pub open spec fn is_number_literal(text: Seq<char>) -> bool {
    &&& text.len() > 0
    &&& is_digit(text[0])
    &&& forall|i: int| 0 <= i < text.len() ==> is_digit(#[trigger] text[i]) || text[i] == '.'
    &&& forall|i: int, j: int|
        0 <= i < j < text.len() ==> !(#[trigger] text[i] == '.' && #[trigger] text[j] == '.')
}

/// The operator that a text names.
pub open spec fn operator_of(text: Seq<char>) -> Option<AstOperator> {
    if text.len() != 1 {
        None
    } else if text[0] == '+' {
        Some(AstOperator::Add)
    } else if text[0] == '-' {
        Some(AstOperator::Sub)
    } else if text[0] == '*' {
        Some(AstOperator::Mult)
    } else if text[0] == '/' {
        Some(AstOperator::Div)
    } else if text[0] == '^' {
        Some(AstOperator::Pow)
    } else if text[0] == '%' {
        Some(AstOperator::Mod)
    } else {
        None
    }
}

/// How tightly an operator binds: a higher number binds tighter.
pub open spec fn precedence(operator: AstOperator) -> nat {
    match operator {
        AstOperator::Add | AstOperator::Sub => 1,
        AstOperator::Mult | AstOperator::Div | AstOperator::Mod => 2,
        AstOperator::Pow => 3,
    }
}

/// The failure at an operator token whose text names no operator.
pub open spec fn invalid_operator_error(token: TokenView) -> ParsingErrorView {
    ParsingErrorView { token: token, desc: "Invalid operator: "@ + token.text }
}

pub open spec fn invalid_operator<T>(token: TokenView) -> Result<T, ParsingErrorView> {
    Err(invalid_operator_error(token))
}

/// The list read so far, followed by the list that is read behind it.
pub open spec fn after<T>(
    items: Seq<T>,
    used: nat,
    rest: Result<(Seq<T>, nat), ParsingErrorView>,
) -> Result<(Seq<T>, nat), ParsingErrorView> {
    match rest {
        Ok((more, n)) => Ok((items + more, used + n)),
        Err(e) => Err(e),
    }
}

/// Putting an item in front of what follows it is the same as adding it to
/// what came before.
pub proof fn lemma_after_first<T>(
    items: Seq<T>,
    used: nat,
    first: T,
    rest: Result<(Seq<T>, nat), ParsingErrorView>,
    by: nat,
)
    ensures
        after(items, used, with_first(first, rest, by)) == after(
            items.push(first),
            used + by,
            rest,
        ),
{
    match rest {
        Ok((more, n)) => {
            assert(items + (seq![first] + more) =~= items.push(first) + more);
        },
        Err(_) => {},
    }
}

/// Nothing read so far changes nothing.
pub proof fn lemma_after_nothing<T>(rest: Result<(Seq<T>, nat), ParsingErrorView>)
    ensures
        after(Seq::<T>::empty(), 0, rest) == rest,
{
    match rest {
        Ok((more, n)) => {
            assert(Seq::<T>::empty() + more =~= more);
        },
        Err(_) => {},
    }
}

pub open spec fn number(token: TokenView) -> Result<(Node, nat), ParsingErrorView> {
    if is_number_literal(token.text) {
        Ok((Node::NumberValue(token.text), 0))
    } else {
        failure(token, "Failed to parse number: "@ + token.text)
    }
}

/// A string literal gives its text without the quote at either end.
pub open spec fn string(token: TokenView) -> Result<(Node, nat), ParsingErrorView> {
    if token.text.len() >= 2 {
        Ok((Node::StringValue(token.text.subrange(1, token.text.len() - 1)), 0))
    } else {
        failure(token, "Invalid string literal"@)
    }
}

pub open spec fn variable(token: TokenView) -> Result<(Node, nat), ParsingErrorView> {
    Ok((Node::Variable(token.text), 0))
}

/// The names between the brackets of a function declaration, from the token
/// behind the opening bracket to the closing bracket.
pub open spec fn parameters(tokens: Seq<TokenView>, at: int) -> Result<
    (Seq<Node>, nat),
    ParsingErrorView,
>
    decreases left(tokens, at),
{
    match kind_at(tokens, at) {
        None => failure(
            current(tokens, at),
            "Unexpected end of stream when parsing function declaration"@,
        ),
        Some(TokenType::CloseParenthesis) => Ok((Seq::empty(), 1)),
        Some(TokenType::Alphanumeric) => match kind_at(tokens, at + 1) {
            Some(TokenType::ParameterDivider) => with_first(
                Node::Variable(tokens[at].text),
                parameters(tokens, at + 2),
                2,
            ),
            Some(TokenType::CloseParenthesis) => with_first(
                Node::Variable(tokens[at].text),
                parameters(tokens, at + 1),
                1,
            ),
            _ => failure(
                tokens[at],
                "Unexpected character when parsing function declaration arguments"@,
            ),
        },
        Some(_) => failure(tokens[at], "Unexpected character when parsing function declaration"@),
    }
}

/// The fields of a struct declaration, each a name, a type symbol and the
/// name of its type, from the token behind the opening bracket to the closing
/// bracket.
pub open spec fn struct_fields(tokens: Seq<TokenView>, at: int) -> Result<
    (Seq<(Seq<char>, Seq<char>)>, nat),
    ParsingErrorView,
>
    decreases left(tokens, at),
{
    match kind_at(tokens, at) {
        None => failure(current(tokens, at), "Unexpected end of stream when parsing statement"@),
        Some(TokenType::CloseBlock) => Ok((Seq::empty(), 1)),
        Some(TokenType::Alphanumeric) => match kind_at(tokens, at + 1) {
            None => failure(tokens[at], "Unexpected end of stream when parsing statement"@),
            Some(TokenType::Symbol) => match kind_at(tokens, at + 2) {
                None => failure(
                    tokens[at + 1],
                    "Unexpected end of stream when parsing statement"@,
                ),
                Some(TokenType::Alphanumeric) => with_first(
                    (tokens[at].text, tokens[at + 2].text),
                    struct_fields(tokens, at + 3),
                    3,
                ),
                Some(_) => failure(
                    tokens[at + 2],
                    "Unexpected character when parsing struct declaration, Alphanumeric expected"@,
                ),
            },
            Some(_) => failure(
                tokens[at + 1],
                "Unexpected character when parsing struct declaration, Symbol expected"@,
            ),
        },
        Some(_) => failure(
            tokens[at],
            "Unexpected character when parsing struct declaration, Alphanumeric expected"@,
        ),
    }
}

/// The names of a list of fields.
pub open spec fn field_names(fields: Seq<(Seq<char>, Seq<char>)>) -> Seq<Seq<char>> {
    fields.map_values(|f: (Seq<char>, Seq<char>)| f.0)
}

/// The type names of a list of fields.
pub open spec fn field_types(fields: Seq<(Seq<char>, Seq<char>)>) -> Seq<Seq<char>> {
    fields.map_values(|f: (Seq<char>, Seq<char>)| f.1)
}

/// A struct declaration: the fields between the brackets, in their order.
pub open spec fn struct_declaration(tokens: Seq<TokenView>, at: int) -> Result<
    (Node, nat),
    ParsingErrorView,
> {
    match struct_fields(tokens, at) {
        Ok((fields, used)) => Ok(
            (
                Node::StructDeclaration {
                    fields: field_names(fields),
                    types: field_types(fields),
                },
                used,
            ),
        ),
        Err(e) => Err(e),
    }
}

/// An operand: a name, a number, a string, or an expression in brackets.
pub open spec fn partial_expression(tokens: Seq<TokenView>, at: int) -> Result<
    (Node, nat),
    ParsingErrorView,
>
    decreases left(tokens, at), 1nat,
{
    let token = current(tokens, at);
    match token.token_type {
        TokenType::Alphanumeric => variable(token),
        TokenType::Numeric => number(token),
        TokenType::StaticString => string(token),
        TokenType::OpenParenthesis => if at >= tokens.len() {
            failure(token, "Missing closing parenthesis"@)
        } else {
            match expression(tokens, at + 1) {
                Ok((node, used)) => if kind_at(tokens, at + 1 + used) == Some(
                    TokenType::CloseParenthesis,
                ) {
                    Ok((node, used + 2))
                } else {
                    failure(token, "Missing closing parenthesis"@)
                },
                Err(e) => Err(e),
            }
        },
        _ => failure(token, "Invalid token in expression"@),
    }
}

/// An operand and the operators and operands that follow it.
pub open spec fn expression(tokens: Seq<TokenView>, at: int) -> Result<
    (Node, nat),
    ParsingErrorView,
>
    decreases left(tokens, at), 2nat,
{
    match partial_expression(tokens, at) {
        Ok((lhs, used)) => and_read(operator_chain(tokens, at + used, lhs), used),
        Err(e) => Err(e),
    }
}

/// The operators that follow a left operand, each with what it binds, taken
/// from left to right.
pub open spec fn operator_chain(tokens: Seq<TokenView>, at: int, lhs: Node) -> Result<
    (Node, nat),
    ParsingErrorView,
>
    decreases left(tokens, at), 0nat,
{
    if kind_at(tokens, at) == Some(TokenType::Operator) {
        match operator(tokens, at + 1, lhs) {
            Ok((node, used)) => and_read(operator_chain(tokens, at + 1 + used, node), 1 + used),
            Err(e) => Err(e),
        }
    } else {
        Ok((lhs, 0))
    }
}

/// The operator read last, applied to `lhs` and to the operand behind it,
/// into which every run of operators that bind tighter is folded first.
pub open spec fn operator(tokens: Seq<TokenView>, at: int, lhs: Node) -> Result<
    (Node, nat),
    ParsingErrorView,
>
    decreases left(tokens, at), 0nat,
{
    let token = current(tokens, at);
    if at >= tokens.len() {
        failure(token, "Missing rhs operand"@)
    } else {
        match partial_expression(tokens, at + 1) {
            Ok((operand, used)) => match climb(tokens, at + 1 + used, token, operand) {
                Ok((rhs, more)) => match operator_of(token.text) {
                    Some(operator) => Ok(
                        (
                            Node::OperatorCall {
                                operator: operator,
                                lhs: Box::new(lhs),
                                rhs: Box::new(rhs),
                            },
                            1 + used + more,
                        ),
                    ),
                    None => invalid_operator(token),
                },
                Err(e) => Err(e),
            },
            Err(e) => Err(e),
        }
    }
}

/// The right operand of the operator `below`: `rhs`, with every operator
/// that follows and binds strictly tighter than `below` folded into it.
pub open spec fn climb(tokens: Seq<TokenView>, at: int, below: TokenView, rhs: Node) -> Result<
    (Node, nat),
    ParsingErrorView,
>
    decreases left(tokens, at), 0nat,
{
    if kind_at(tokens, at) == Some(TokenType::Operator) {
        match operator_of(below.text) {
            None => invalid_operator(below),
            Some(lower) => match operator_of(tokens[at].text) {
                None => invalid_operator(tokens[at]),
                Some(upper) => if precedence(lower) < precedence(upper) {
                    match operator(tokens, at + 1, rhs) {
                        Ok((folded, used)) => and_read(
                            climb(tokens, at + 1 + used, below, folded),
                            1 + used,
                        ),
                        Err(e) => Err(e),
                    }
                } else {
                    Ok((rhs, 0))
                },
            },
        }
    } else {
        Ok((rhs, 0))
    }
}

/// The arguments of a call, from the token behind the opening bracket to the
/// closing bracket.
pub open spec fn call_arguments(tokens: Seq<TokenView>, at: int) -> Result<
    (Seq<Node>, nat),
    ParsingErrorView,
>
    decreases left(tokens, at), 0nat,
{
    match kind_at(tokens, at) {
        None => failure(current(tokens, at), "Unexpected end of stream when parsing statement"@),
        Some(TokenType::CloseParenthesis) => Ok((Seq::empty(), 1)),
        Some(_) => match expression(tokens, at + 1) {
            Ok((argument, used)) => match kind_at(tokens, at + 1 + used) {
                Some(TokenType::ParameterDivider) => with_first(
                    argument,
                    call_arguments(tokens, at + 2 + used),
                    2 + used,
                ),
                Some(TokenType::CloseParenthesis) => with_first(
                    argument,
                    call_arguments(tokens, at + 1 + used),
                    1 + used,
                ),
                _ => failure(
                    current(tokens, at + 1 + used),
                    "Unexpected character when parsing function call arguments"@,
                ),
            },
            Err(e) => Err(e),
        },
    }
}

/// A call: the name read last, the opening bracket behind it, the arguments up
/// to the closing bracket, and the block that follows them, if one does.
pub open spec fn function_call(tokens: Seq<TokenView>, at: int) -> Result<
    (Node, nat),
    ParsingErrorView,
>
    decreases left(tokens, at), 3nat,
{
    let name = current(tokens, at).text;
    match call_arguments(tokens, at + 1) {
        Ok((arguments, used)) => if kind_at(tokens, at + 1 + used) == Some(TokenType::OpenBlock) {
            match block_items(tokens, at + 2 + used, true) {
                Ok((body, more)) => Ok(
                    (
                        Node::FunctionCall { name: name, arguments: arguments, body: Some(body) },
                        2 + used + more,
                    ),
                ),
                Err(e) => Err(e),
            }
        } else {
            Ok((Node::FunctionCall { name: name, arguments: arguments, body: None }, 1 + used))
        },
        Err(e) => Err(e),
    }
}

/// A function declaration: the names in brackets, then the body in a block.
pub open spec fn function_declaration(tokens: Seq<TokenView>, at: int) -> Result<
    (Node, nat),
    ParsingErrorView,
>
    decreases left(tokens, at), 0nat,
{
    match parameters(tokens, at) {
        Ok((arguments, used)) => match kind_at(tokens, at + used) {
            Some(TokenType::OpenBlock) => match block_items(tokens, at + used + 1, true) {
                Ok((body, more)) => Ok(
                    (
                        Node::FunctionDeclaration { arguments: arguments, body: body },
                        used + 1 + more,
                    ),
                ),
                Err(e) => Err(e),
            },
            Some(_) => failure(
                tokens[at + used],
                "Unexpected character when parsing function declaration"@,
            ),
            None => failure(
                current(tokens, at + used),
                "Unexpected end of stream when parsing function declaration"@,
            ),
        },
        Err(e) => Err(e),
    }
}

/// What may stand behind `::`: a function declaration, a struct declaration
/// or an expression.
pub open spec fn static_expression(tokens: Seq<TokenView>, at: int) -> Result<
    (Node, nat),
    ParsingErrorView,
>
    decreases left(tokens, at), 3nat,
{
    let token = current(tokens, at);
    match token.token_type {
        TokenType::OpenParenthesis => function_declaration(tokens, at),
        TokenType::OpenBlock => struct_declaration(tokens, at),
        TokenType::Alphanumeric | TokenType::Numeric | TokenType::StaticString => expression(
            tokens,
            at,
        ),
        _ => failure(token, "Invalid token in expression"@),
    }
}

/// A binding of the name read last: an optional type symbol with the name of
/// the type, then `::` with a static expression, which gives an alias, or `=`
/// with an expression, which gives an assignment. The type is read and not
/// kept.
pub open spec fn assignment(tokens: Seq<TokenView>, at: int) -> Result<
    (Node, nat),
    ParsingErrorView,
>
    decreases left(tokens, at), 3nat,
{
    let name = current(tokens, at).text;
    let sign: int = if kind_at(tokens, at) == Some(TokenType::Symbol) {
        if kind_at(tokens, at + 1) == Some(TokenType::Alphanumeric) {
            at + 2
        } else {
            at + 1
        }
    } else {
        at
    };
    match kind_at(tokens, sign) {
        None => failure(current(tokens, sign), "Unexpected end of stream when parsing statement"@),
        Some(TokenType::StaticAssignment) => {
            let from = advance(tokens, sign + 1);
            match static_expression(tokens, from) {
                Ok((node, used)) => Ok(
                    (Node::Alias { to: name, from: Box::new(node) }, (from - at + used) as nat),
                ),
                Err(e) => Err(e),
            }
        },
        Some(TokenType::VariableAssignment) => {
            let from = advance(tokens, sign + 1);
            match expression(tokens, from) {
                Ok((node, used)) => Ok(
                    (Node::Assignment { to: name, from: Box::new(node) }, (from - at + used) as nat),
                ),
                Err(e) => Err(e),
            }
        },
        Some(_) => failure(tokens[sign], "Unexpected character when parsing an assignment"@),
    }
}

/// What a statement is that starts with a name, told apart by the token
/// behind the name.
pub open spec fn named(tokens: Seq<TokenView>, at: int) -> Result<(Node, nat), ParsingErrorView>
    decreases left(tokens, at), 4nat,
{
    match kind_at(tokens, at) {
        None => failure(current(tokens, at), "Unexpected end of stream when parsing a variable"@),
        Some(TokenType::Symbol) | Some(TokenType::VariableAssignment) | Some(
            TokenType::StaticAssignment,
        ) => assignment(tokens, at),
        Some(TokenType::OpenParenthesis) => function_call(tokens, at),
        Some(_) => expression(tokens, at),
    }
}

/// The statement whose first token was read last.
pub open spec fn statement(tokens: Seq<TokenView>, at: int) -> Result<(Node, nat), ParsingErrorView>
    decreases left(tokens, at), 5nat,
{
    let token = current(tokens, at);
    match token.token_type {
        TokenType::OpenBlock => match block_items(tokens, at, true) {
            Ok((items, used)) => Ok((Node::Block(items), used)),
            Err(e) => Err(e),
        },
        TokenType::EndOfStatement => Ok((Node::NullValue, 0)),
        _ => {
            let head = if token.token_type == TokenType::Alphanumeric {
                named(tokens, at)
            } else {
                expression(tokens, at)
            };
            match head {
                Ok((node, used)) => match operator_chain(tokens, at + used, node) {
                    Ok((whole, more)) => match kind_at(tokens, at + used + more) {
                        Some(TokenType::EndOfStatement) => Ok((whole, used + more + 1)),
                        Some(_) => failure(
                            tokens[at + used + more],
                            "Statements must end with a ; token"@,
                        ),
                        None => failure(
                            current(tokens, at + used + more),
                            "Unexpected end of stream when parsing statement"@,
                        ),
                    },
                    Err(e) => Err(e),
                },
                Err(e) => Err(e),
            }
        },
    }
}

/// The statements of a block, up to the bracket that closes it. Comments
/// between statements are passed over. Where the source ends, the outermost
/// block ends and a nested one is left open.
pub open spec fn block_items(tokens: Seq<TokenView>, at: int, nested: bool) -> Result<
    (Seq<Node>, nat),
    ParsingErrorView,
>
    decreases left(tokens, at), 0nat,
{
    match kind_at(tokens, at) {
        None => if nested {
            failure(current(tokens, at), "Unexpected end of stream when parsing a block"@)
        } else {
            Ok((Seq::empty(), 0))
        },
        Some(TokenType::CloseBlock) => Ok((Seq::empty(), 1)),
        Some(TokenType::Comment) => and_read(block_items(tokens, at + 1, nested), 1),
        Some(_) => match statement(tokens, at + 1) {
            Ok((node, used)) => with_first(
                node,
                block_items(tokens, at + 1 + used, nested),
                1 + used,
            ),
            Err(e) => Err(e),
        },
    }
}

/// The syntax tree of a list of tokens: the block of its statements.
pub open spec fn syntax_tree(tokens: Seq<TokenView>) -> Result<Node, ParsingErrorView> {
    match block_items(tokens, 0, false) {
        Ok((items, _)) => Ok(Node::Block(items)),
        Err(e) => Err(e),
    }
}

} // verus!
