use vstd::prelude::*;
use vstd::string::StrSliceExecFns;
use crate::grammar::{
    advance, after, assignment, block_items, call_arguments, climb, current, expression,
    field_names, field_types, function_call, function_declaration, invalid_operator_error,
    is_number_literal, kind_at, left, lemma_after_first, lemma_after_nothing, named, null_token,
    number, operator, operator_chain, operator_of, parameters, partial_expression, precedence,
    statement, static_expression, string, struct_declaration, struct_fields, syntax_tree,
    variable,
};
use crate::text::{joined, to_chars};
use crate::tokenizer::{is_digit, is_digit_char, views, Token, TokenType, TokenView};

verus! {

/// What went wrong in the parser: the description and the offending token.
#[derive(Debug)]
pub struct ParsingError {
    token: Token,
    desc: String,
}

pub struct ParsingErrorView {
    pub token: TokenView,
    pub desc: Seq<char>,
}

impl View for ParsingError {
    type V = ParsingErrorView;

    closed spec fn view(&self) -> ParsingErrorView {
        ParsingErrorView { token: self.token@, desc: self.desc@ }
    }
}

impl ParsingError {
    pub fn new(token: &Token, desc: String) -> (res: ParsingError)
        ensures
            res@ == (ParsingErrorView { token: token@, desc: desc@ }),
    {
        ParsingError { token: token.clone(), desc: desc }
    }

    /// The token at which the parser gave up.
    pub fn get_token(&self) -> (res: &Token)
        ensures
            res@ == self@.token,
    {
        &self.token
    }

    /// The reason, in words.
    pub fn get_description(&self) -> (res: &str)
        ensures
            res@ == self@.desc,
    {
        self.desc.as_str()
    }
}

/// The binary operators of the language.
#[derive(Debug, Copy, Clone, PartialEq, Eq, Structural)]
pub enum AstOperator {
    Add,
    Sub,
    Mult,
    Div,
    Pow,
    Mod,
}

#[derive(Debug)]
pub enum AstNodeType {
    Block(Box<AstBlock>),
    OperatorCall(Box<AstOperatorCall>),
    FunctionCall(Box<AstFunctionCall>),
    StringValue(Box<AstStringValue>),
    NumberValue(Box<AstNumberValue>),
    FunctionDeclaration(Box<AstFunctionDeclaration>),
    StructDeclaration(Box<AstStructDeclaration>),
    Variable(Box<AstVariable>),
    Assignment(Box<AstAssignment>),
    Alias(Box<AstAlias>),
    NullValue(Box<AstNullValue>),
}

#[derive(Debug)]
pub struct Ast {
    pub root: AstNodeType,
}

#[derive(Debug)]
pub struct AstBlock {
    pub statements: Vec<AstNodeType>,
}

#[derive(Debug)]
pub struct AstNullValue {}

#[derive(Debug)]
pub struct AstFunctionCall {
    pub name: String,
    pub arguments: Vec<AstNodeType>,
    pub body: Option<AstBlock>,
}

#[derive(Debug)]
pub struct AstOperatorCall {
    pub rhs: AstNodeType,
    pub lhs: AstNodeType,
    pub operator: AstOperator,
}

#[derive(Debug)]
pub struct AstFunctionDeclaration {
    pub arguments: Vec<AstNodeType>,
    pub body: AstBlock,
}

#[derive(Debug)]
pub struct AstStructDeclaration {
    pub fields: Vec<String>,
    pub types: Vec<String>,
}

#[derive(Debug)]
pub struct AstStringValue {
    pub value: String,
}

/// A number literal, kept as the text that was read: one or more digits,
/// then at most one dot with the digits behind it.
#[derive(Debug)]
pub struct AstNumberValue {
    pub value: String,
}

#[derive(Debug)]
pub struct AstVariable {
    pub name: String,
}

#[derive(Debug)]
pub struct AstAssignment {
    pub to: AstVariable,
    pub from: AstNodeType,
}

#[derive(Debug)]
pub struct AstAlias {
    pub to: AstVariable,
    pub from: AstNodeType,
}

/// A syntax tree as a mathematical value.
#[allow(inconsistent_fields)]
pub enum Node {
    Block(Seq<Node>),
    OperatorCall { operator: AstOperator, lhs: Box<Node>, rhs: Box<Node> },
    FunctionCall { name: Seq<char>, arguments: Seq<Node>, body: Option<Seq<Node>> },
    StringValue(Seq<char>),
    NumberValue(Seq<char>),
    FunctionDeclaration { arguments: Seq<Node>, body: Seq<Node> },
    StructDeclaration { fields: Seq<Seq<char>>, types: Seq<Seq<char>> },
    Variable(Seq<char>),
    Assignment { to: Seq<char>, from: Box<Node> },
    Alias { to: Seq<char>, from: Box<Node> },
    NullValue,
}

/// The texts of a list of strings.
pub open spec fn texts(strings: Seq<String>) -> Seq<Seq<char>> {
    strings.map_values(|s: String| s@)
}

/// The tree that a node stands for.
pub open spec fn node_view(node: AstNodeType) -> Node
    decreases node,
{
    match node {
        AstNodeType::Block(block) => Node::Block(node_views(block.statements@)),
        AstNodeType::OperatorCall(call) => Node::OperatorCall {
            operator: call.operator,
            lhs: Box::new(node_view(call.lhs)),
            rhs: Box::new(node_view(call.rhs)),
        },
        AstNodeType::FunctionCall(call) => Node::FunctionCall {
            name: call.name@,
            arguments: node_views(call.arguments@),
            body: match call.body {
                Some(block) => Some(node_views(block.statements@)),
                None => None,
            },
        },
        AstNodeType::StringValue(string) => Node::StringValue(string.value@),
        AstNodeType::NumberValue(number) => Node::NumberValue(number.value@),
        AstNodeType::FunctionDeclaration(function) => Node::FunctionDeclaration {
            arguments: node_views(function.arguments@),
            body: node_views(function.body.statements@),
        },
        AstNodeType::StructDeclaration(structure) => Node::StructDeclaration {
            fields: texts(structure.fields@),
            types: texts(structure.types@),
        },
        AstNodeType::Variable(variable) => Node::Variable(variable.name@),
        AstNodeType::Assignment(assignment) => Node::Assignment {
            to: assignment.to.name@,
            from: Box::new(node_view(assignment.from)),
        },
        AstNodeType::Alias(alias) => Node::Alias {
            to: alias.to.name@,
            from: Box::new(node_view(alias.from)),
        },
        AstNodeType::NullValue(_) => Node::NullValue,
    }
}

/// The trees that a list of nodes stands for.
pub open spec fn node_views(nodes: Seq<AstNodeType>) -> Seq<Node>
    decreases nodes,
{
    Seq::new(
        nodes.len(),
        |i: int|
            if 0 <= i < nodes.len() {
                node_view(nodes[i])
            } else {
                Node::NullValue
            },
    )
}

impl View for AstNodeType {
    type V = Node;

    open spec fn view(&self) -> Node {
        node_view(*self)
    }
}

impl View for AstBlock {
    type V = Seq<Node>;

    open spec fn view(&self) -> Seq<Node> {
        node_views(self.statements@)
    }
}

impl View for Ast {
    type V = Node;

    open spec fn view(&self) -> Node {
        node_view(self.root)
    }
}


/// Whether a text is a number literal.
pub fn is_number_text(text: &str) -> (res: bool)
    ensures
        res == is_number_literal(text@),
{
    let chars = to_chars(text);
    let n: usize = chars.len();
    if n == 0 {
        return false;
    }
    if !is_digit_char(chars[0]) {
        return false;
    }
    let mut seen_dot = false;
    let mut i: usize = 0;
    while i < n
        invariant
            0 <= i <= n,
            n == chars@.len(),
            chars@ == text@,
            forall|k: int| 0 <= k < i ==> is_digit(#[trigger] chars@[k]) || chars@[k] == '.',
            seen_dot <==> exists|k: int| 0 <= k < i && #[trigger] chars@[k] == '.',
            forall|a: int, b: int|
                0 <= a < b < i ==> !(#[trigger] chars@[a] == '.' && #[trigger] chars@[b] == '.'),
        decreases n - i,
    {
        let c = chars[i];
        if c == '.' {
            if seen_dot {
                return false;
            }
            seen_dot = true;
        } else if !is_digit_char(c) {
            return false;
        }
        i += 1;
    }
    true
}

/// The operator that a text names, if it names one.
pub fn operator_from_text(text: &str) -> (res: Option<AstOperator>)
    ensures
        res == operator_of(text@),
{
    if text.unicode_len() != 1 {
        return None;
    }
    let c = text.get_char(0);
    if c == '+' {
        Some(AstOperator::Add)
    } else if c == '-' {
        Some(AstOperator::Sub)
    } else if c == '*' {
        Some(AstOperator::Mult)
    } else if c == '/' {
        Some(AstOperator::Div)
    } else if c == '^' {
        Some(AstOperator::Pow)
    } else if c == '%' {
        Some(AstOperator::Mod)
    } else {
        None
    }
}

impl AstOperator {
    /// The operator that an operator token names.
    pub fn from_token(token: &Token) -> (res: AstOperator)
        requires
            token@.token_type == TokenType::Operator,
            operator_of(token@.text) is Some,
        ensures
            Some(res) == operator_of(token@.text),
    {
        match operator_from_text(token.text()) {
            Some(operator) => operator,
            None => AstOperator::Add,
        }
    }

    /// How tightly the operator binds.
    pub fn get_precedence(&self) -> (res: usize)
        ensures
            res == precedence(*self),
    {
        match self {
            AstOperator::Add | AstOperator::Sub => 1,
            AstOperator::Mult | AstOperator::Div | AstOperator::Mod => 2,
            AstOperator::Pow => 3,
        }
    }
}

/// The place of a parser in a list of tokens.
pub struct Parser<'a> {
    tokens: &'a Vec<Token>,
    position: usize,
    current_token: &'a Token,
}

impl<'a> Parser<'a> {
    /// The tokens that the parser reads.
    pub closed spec fn stream(&self) -> Seq<TokenView> {
        views(self.tokens@)
    }

    /// How many of them it has read.
    pub closed spec fn place(&self) -> int {
        self.position as int
    }

    pub closed spec fn wf(&self) -> bool {
        &&& self.position <= self.tokens@.len()
        &&& self.current_token@ == current(views(self.tokens@), self.position as int)
    }

    /// The parser has read on in the same tokens, or not at all.
    pub open spec fn reads_on(&self, before: &Parser<'a>) -> bool {
        &&& self.wf()
        &&& self.stream() == before.stream()
        &&& self.place() >= before.place()
    }

    /// The parser has read on, and what it gives is what the grammar gives
    /// for the tokens from the place where it stood before.
    pub open spec fn follows(
        &self,
        before: &Parser<'a>,
        res: Result<AstNodeType, ParsingError>,
        expected: Result<(Node, nat), ParsingErrorView>,
    ) -> bool {
        &&& self.reads_on(before)
        &&& match res {
            Ok(node) => expected == Ok::<(Node, nat), ParsingErrorView>(
                (node@, (self.place() - before.place()) as nat),
            ),
            Err(e) => expected == Err::<(Node, nat), ParsingErrorView>(e@),
        }
    }

    /// A parser that has read none of the tokens; `null` is the token that
    /// it holds until it has read one.
    pub fn new(tokens: &'a Vec<Token>, null: &'a Token) -> (res: Parser<'a>)
        requires
            null@ == null_token(),
        ensures
            res.wf(),
            res.stream() == views(tokens@),
            res.place() == 0,
    {
        Parser { tokens: tokens, position: 0, current_token: null }
    }

    /// Reads the next token, where one is left.
    pub fn next_token(&mut self) -> (res: Option<&'a Token>)
        requires
            old(self).wf(),
        ensures
            final(self).reads_on(old(self)),
            final(self).place() == advance(old(self).stream(), old(self).place()),
            match res {
                Some(token) => old(self).place() < old(self).stream().len() && token@ == old(
                    self,
                ).stream()[old(self).place()],
                None => old(self).place() >= old(self).stream().len(),
            },
    {
        if self.position < self.tokens.len() {
            let token = &self.tokens[self.position];
            self.position += 1;
            self.current_token = token;
            Some(token)
        } else {
            None
        }
    }

    /// The token that would be read next.
    pub fn peek_token(&self) -> (res: Option<&'a Token>)
        requires
            self.wf(),
        ensures
            match res {
                Some(token) => self.place() < self.stream().len() && token@ == self.stream()[self.place()],
                None => self.place() >= self.stream().len(),
            },
    {
        if self.position < self.tokens.len() {
            Some(&self.tokens[self.position])
        } else {
            None
        }
    }

    /// The kind of the token that would be read next.
    pub fn peek_type(&self) -> (res: Option<TokenType>)
        requires
            self.wf(),
        ensures
            res == kind_at(self.stream(), self.place()),
    {
        match self.peek_token() {
            Some(token) => Some(token.get_type()),
            None => None,
        }
    }

    /// The token read last, or the null token where none was read.
    pub fn current(&self) -> (res: &'a Token)
        requires
            self.wf(),
        ensures
            res@ == current(self.stream(), self.place()),
    {
        self.current_token
    }

    /// The failure at the token read last.
    fn fail<T>(&self, desc: &str) -> (res: Result<T, ParsingError>)
        requires
            self.wf(),
        ensures
            res is Err,
            res->Err_0@ == (ParsingErrorView {
                token: current(self.stream(), self.place()),
                desc: desc@,
            }),
    {
        Err(ParsingError::new(self.current(), desc.to_owned()))
    }

    fn parse_number(&mut self) -> (res: Result<AstNodeType, ParsingError>)
        requires
            old(self).wf(),
        ensures
            final(self).follows(old(self), res, number(current(old(self).stream(), old(self).place()))),
    {
        let text = self.current().get_text();
        if is_number_text(text.as_str()) {
            let value = AstNumberValue { value: text };
            Ok(AstNodeType::NumberValue(Box::new(value)))
        } else {
            let msg = joined("Failed to parse number: ", text.as_str());
            Err(ParsingError::new(self.current(), msg))
        }
    }

    fn parse_string(&mut self) -> (res: Result<AstNodeType, ParsingError>)
        requires
            old(self).wf(),
        ensures
            final(self).follows(old(self), res, string(current(old(self).stream(), old(self).place()))),
    {
        let token = self.current();
        let text = token.text();
        let length: usize = text.unicode_len();
        if length >= 2 {
            let value = AstStringValue { value: text.substring_char(1, length - 1).to_owned() };
            Ok(AstNodeType::StringValue(Box::new(value)))
        } else {
            self.fail("Invalid string literal")
        }
    }

    fn parse_variable(&mut self) -> (res: Result<AstNodeType, ParsingError>)
        requires
            old(self).wf(),
        ensures
            final(self).follows(old(self), res, variable(current(old(self).stream(), old(self).place()))),
    {
        let variable = AstVariable { name: self.current().get_text() };
        Ok(AstNodeType::Variable(Box::new(variable)))
    }

    /// How tightly the operator of a token binds.
    pub fn get_operator_precedence(&self, token: &Token) -> (res: Result<usize, ParsingError>)
        requires
            token@.token_type == TokenType::Operator,
        ensures
            match res {
                Ok(level) => operator_of(token@.text) is Some && level == precedence(
                    operator_of(token@.text)->Some_0,
                ),
                Err(e) => operator_of(token@.text) is None && e@ == invalid_operator_error(token@),
            },
    {
        match operator_from_text(token.text()) {
            Some(operator) => Ok(operator.get_precedence()),
            None => {
                let msg = joined("Invalid operator: ", token.text());
                Err(ParsingError::new(token, msg))
            },
        }
    }

    /// The failure at a given token.
    fn fail_at<T>(token: &Token, desc: &str) -> (res: Result<T, ParsingError>)
        ensures
            res is Err,
            res->Err_0@ == (ParsingErrorView { token: token@, desc: desc@ }),
    {
        Err(ParsingError::new(token, desc.to_owned()))
    }

    #[verifier::spinoff_prover]
    fn parse_partial_expression(&mut self) -> (res: Result<AstNodeType, ParsingError>)
        requires
            old(self).wf(),
        ensures
            final(self).follows(
                old(self),
                res,
                partial_expression(old(self).stream(), old(self).place()),
            ),
        decreases left(old(self).stream(), old(self).place()), 1nat,
    {
        let token = self.current();
        match token.get_type() {
            TokenType::Alphanumeric => self.parse_variable(),
            TokenType::Numeric => self.parse_number(),
            TokenType::StaticString => self.parse_string(),
            TokenType::OpenParenthesis => {
                if self.next_token().is_none() {
                    return Self::fail_at(token, "Missing closing parenthesis");
                }
                let expr = self.parse_expression()?;
                match self.next_token() {
                    Some(closing) => {
                        if closing.get_type() == TokenType::CloseParenthesis {
                            Ok(expr)
                        } else {
                            Self::fail_at(token, "Missing closing parenthesis")
                        }
                    },
                    None => Self::fail_at(token, "Missing closing parenthesis"),
                }
            },
            _ => self.fail("Invalid token in expression"),
        }
    }

    fn parse_expression(&mut self) -> (res: Result<AstNodeType, ParsingError>)
        requires
            old(self).wf(),
        ensures
            final(self).follows(old(self), res, expression(old(self).stream(), old(self).place())),
        decreases left(old(self).stream(), old(self).place()), 2nat,
    {
        let lhs = self.parse_partial_expression()?;
        self.parse_operator_chain(lhs)
    }

    /// Reads the operators that follow a left operand, from left to right.
    fn parse_operator_chain(&mut self, lhs: AstNodeType) -> (res: Result<AstNodeType, ParsingError>)
        requires
            old(self).wf(),
        ensures
            final(self).follows(
                old(self),
                res,
                operator_chain(old(self).stream(), old(self).place(), lhs@),
            ),
        decreases left(old(self).stream(), old(self).place()), 0nat,
    {
        match self.peek_type() {
            Some(TokenType::Operator) => {
                self.next_token();
                let node = self.parse_operator(lhs)?;
                self.parse_operator_chain(node)
            },
            _ => Ok(lhs),
        }
    }

    #[verifier::spinoff_prover]
    fn parse_operator(&mut self, lhs: AstNodeType) -> (res: Result<AstNodeType, ParsingError>)
        requires
            old(self).wf(),
            current(old(self).stream(), old(self).place()).token_type == TokenType::Operator,
        ensures
            final(self).follows(
                old(self),
                res,
                operator(old(self).stream(), old(self).place(), lhs@),
            ),
        decreases left(old(self).stream(), old(self).place()), 0nat,
    {
        let lhs_operator = self.current();
        if self.next_token().is_none() {
            return self.fail("Missing rhs operand");
        }
        let operand = self.parse_partial_expression()?;
        let rhs = self.climb(lhs_operator, operand)?;
        match self.get_operator_precedence(lhs_operator) {
            Ok(_) => {
                let operator = AstOperator::from_token(lhs_operator);
                let call = AstOperatorCall { lhs: lhs, rhs: rhs, operator: operator };
                Ok(AstNodeType::OperatorCall(Box::new(call)))
            },
            Err(e) => Err(e),
        }
    }

    /// Folds into a right operand every operator that follows and binds
    /// strictly tighter than the operator `below`.
    fn climb(&mut self, below: &'a Token, rhs: AstNodeType) -> (res: Result<
        AstNodeType,
        ParsingError,
    >)
        requires
            old(self).wf(),
            below@.token_type == TokenType::Operator,
        ensures
            final(self).follows(
                old(self),
                res,
                climb(old(self).stream(), old(self).place(), below@, rhs@),
            ),
        decreases left(old(self).stream(), old(self).place()), 0nat,
    {
        match self.peek_token() {
            Some(upper) => {
                if upper.get_type() == TokenType::Operator {
                    let low = self.get_operator_precedence(below)?;
                    let high = self.get_operator_precedence(upper)?;
                    if low < high {
                        self.next_token();
                        let folded = self.parse_operator(rhs)?;
                        self.climb(below, folded)
                    } else {
                        Ok(rhs)
                    }
                } else {
                    Ok(rhs)
                }
            },
            None => Ok(rhs),
        }
    }

    /// Reads the names between the brackets of a function declaration, the
    /// closing bracket included.
    #[verifier::spinoff_prover]
    fn parse_parameters(&mut self) -> (res: Result<Vec<AstNodeType>, ParsingError>)
        requires
            old(self).wf(),
        ensures
            final(self).reads_on(old(self)),
            match res {
                Ok(arguments) => parameters(old(self).stream(), old(self).place()) == Ok::<
                    (Seq<Node>, nat),
                    ParsingErrorView,
                >((node_views(arguments@), (final(self).place() - old(self).place()) as nat)),
                Err(e) => parameters(old(self).stream(), old(self).place()) == Err::<
                    (Seq<Node>, nat),
                    ParsingErrorView,
                >(e@),
            },
    {
        let ghost ts = self.stream();
        let ghost start = self.place();
        let mut arguments: Vec<AstNodeType> = Vec::new();
        proof {
            lemma_after_nothing(parameters(ts, start));
            assert(node_views(arguments@) =~= Seq::<Node>::empty());
        }
        loop
            invariant_except_break
                parameters(ts, start) == after(
                    node_views(arguments@),
                    (self.place() - start) as nat,
                    parameters(ts, self.place()),
                ),
            invariant
                self.wf(),
                self.stream() == ts,
                ts == old(self).stream(),
                start == old(self).place(),
                start <= self.place(),
            ensures
                parameters(ts, start) == Ok::<(Seq<Node>, nat), ParsingErrorView>(
                    (node_views(arguments@), (self.place() - start) as nat),
                ),
            decreases left(ts, self.place()),
        {
            let ghost at = self.place();
            let ghost before = node_views(arguments@);
            match self.next_token() {
                None => {
                    return self.fail("Unexpected end of stream when parsing function declaration");
                },
                Some(token) => {
                    if token.get_type() == TokenType::CloseParenthesis {
                        assert(before + Seq::<Node>::empty() =~= before);
                        break ;
                    }
                    if token.get_type() != TokenType::Alphanumeric {
                        return self.fail("Unexpected character when parsing function declaration");
                    }
                    let argument = AstVariable { name: token.get_text() };
                    let node = AstNodeType::Variable(Box::new(argument));
                    arguments.push(node);
                    assert(node_views(arguments@) =~= before.push(Node::Variable(token@.text)));
                    match self.peek_type() {
                        Some(TokenType::ParameterDivider) => {
                            self.next_token();
                            proof {
                                lemma_after_first(
                                    before,
                                    (at - start) as nat,
                                    Node::Variable(token@.text),
                                    parameters(ts, at + 2),
                                    2,
                                );
                            }
                        },
                        Some(TokenType::CloseParenthesis) => {
                            proof {
                                lemma_after_first(
                                    before,
                                    (at - start) as nat,
                                    Node::Variable(token@.text),
                                    parameters(ts, at + 1),
                                    1,
                                );
                            }
                        },
                        _ => {
                            return self.fail(
                                "Unexpected character when parsing function declaration arguments",
                            );
                        },
                    }
                },
            }
        }
        Ok(arguments)
    }

    #[verifier::spinoff_prover]
    fn parse_function_declaration(&mut self) -> (res: Result<AstNodeType, ParsingError>)
        requires
            old(self).wf(),
        ensures
            final(self).follows(
                old(self),
                res,
                function_declaration(old(self).stream(), old(self).place()),
            ),
        decreases left(old(self).stream(), old(self).place()), 0nat,
    {
        let arguments = self.parse_parameters()?;
        match self.next_token() {
            None => self.fail("Unexpected end of stream when parsing function declaration"),
            Some(token) => {
                if token.get_type() == TokenType::OpenBlock {
                    let body = self.parse_block_raw(true)?;
                    let function = AstFunctionDeclaration { arguments: arguments, body: body };
                    Ok(AstNodeType::FunctionDeclaration(Box::new(function)))
                } else {
                    self.fail("Unexpected character when parsing function declaration")
                }
            },
        }
    }

    #[verifier::spinoff_prover]
    fn parse_struct_declaration(&mut self) -> (res: Result<AstNodeType, ParsingError>)
        requires
            old(self).wf(),
        ensures
            final(self).follows(
                old(self),
                res,
                struct_declaration(old(self).stream(), old(self).place()),
            ),
    {
        let ghost ts = self.stream();
        let ghost start = self.place();
        let mut fields: Vec<String> = Vec::new();
        let mut types: Vec<String> = Vec::new();
        let ghost pairs = Seq::<(Seq<char>, Seq<char>)>::empty();
        proof {
            lemma_after_nothing(struct_fields(ts, start));
            assert(texts(fields@) =~= field_names(pairs));
            assert(texts(types@) =~= field_types(pairs));
        }
        loop
            invariant_except_break
                struct_fields(ts, start) == after(
                    pairs,
                    (self.place() - start) as nat,
                    struct_fields(ts, self.place()),
                ),
            invariant
                self.wf(),
                self.stream() == ts,
                ts == old(self).stream(),
                start == old(self).place(),
                start <= self.place(),
                texts(fields@) == field_names(pairs),
                texts(types@) == field_types(pairs),
            ensures
                self.wf(),
                self.stream() == ts,
                start <= self.place(),
                texts(fields@) == field_names(pairs),
                texts(types@) == field_types(pairs),
                struct_fields(ts, start) == Ok::<(Seq<(Seq<char>, Seq<char>)>, nat), ParsingErrorView>(
                    (pairs, (self.place() - start) as nat),
                ),
            decreases left(ts, self.place()),
        {
            let ghost at = self.place();
            let ghost before = pairs;
            let field_name_token = match self.next_token() {
                Some(token) => token,
                None => {
                    return self.fail("Unexpected end of stream when parsing statement");
                },
            };
            if field_name_token.get_type() == TokenType::CloseBlock {
                assert(before + Seq::<(Seq<char>, Seq<char>)>::empty() =~= before);
                break ;
            }
            if field_name_token.get_type() != TokenType::Alphanumeric {
                return self.fail(
                    "Unexpected character when parsing struct declaration, Alphanumeric expected",
                );
            }
            match self.next_token() {
                Some(symbol) => {
                    if symbol.get_type() != TokenType::Symbol {
                        return self.fail(
                            "Unexpected character when parsing struct declaration, Symbol expected",
                        );
                    }
                },
                None => {
                    return self.fail("Unexpected end of stream when parsing statement");
                },
            }
            let field_type_token = match self.next_token() {
                Some(token) => token,
                None => {
                    return self.fail("Unexpected end of stream when parsing statement");
                },
            };
            if field_type_token.get_type() != TokenType::Alphanumeric {
                return self.fail(
                    "Unexpected character when parsing struct declaration, Alphanumeric expected",
                );
            }
            let ghost names_before = fields@;
            let ghost types_before = types@;
            fields.push(field_name_token.get_text());
            types.push(field_type_token.get_text());
            proof {
                let pair = (field_name_token@.text, field_type_token@.text);
                pairs = before.push(pair);
                assert(texts(fields@) =~= texts(names_before).push(pair.0));
                assert(texts(types@) =~= texts(types_before).push(pair.1));
                assert(field_names(pairs) =~= field_names(before).push(pair.0));
                assert(field_types(pairs) =~= field_types(before).push(pair.1));
                lemma_after_first(before, (at - start) as nat, pair, struct_fields(ts, at + 3), 3);
            }
        }
        let structure = AstStructDeclaration { fields: fields, types: types };
        Ok(AstNodeType::StructDeclaration(Box::new(structure)))
    }

    #[verifier::spinoff_prover]
    fn parse_static_expression(&mut self) -> (res: Result<AstNodeType, ParsingError>)
        requires
            old(self).wf(),
        ensures
            final(self).follows(
                old(self),
                res,
                static_expression(old(self).stream(), old(self).place()),
            ),
        decreases left(old(self).stream(), old(self).place()), 3nat,
    {
        match self.current().get_type() {
            TokenType::OpenParenthesis => self.parse_function_declaration(),
            TokenType::OpenBlock => self.parse_struct_declaration(),
            TokenType::Alphanumeric | TokenType::Numeric | TokenType::StaticString => {
                self.parse_expression()
            },
            _ => self.fail("Invalid token in expression"),
        }
    }

    #[verifier::spinoff_prover]
    fn parse_assignment(&mut self) -> (res: Result<AstNodeType, ParsingError>)
        requires
            old(self).wf(),
        ensures
            final(self).follows(old(self), res, assignment(old(self).stream(), old(self).place())),
        decreases left(old(self).stream(), old(self).place()), 3nat,
    {
        let variable_name = self.current().get_text();
        match self.peek_type() {
            Some(TokenType::Symbol) => {
                self.next_token();
                match self.peek_type() {
                    Some(TokenType::Alphanumeric) => {
                        self.next_token();
                    },
                    _ => {},
                }
            },
            _ => {},
        }
        let assignment_type_token = match self.next_token() {
            Some(token) => token,
            None => {
                return self.fail("Unexpected end of stream when parsing statement");
            },
        };
        match assignment_type_token.get_type() {
            TokenType::StaticAssignment => {
                let variable = AstVariable { name: variable_name };
                self.next_token();
                let expression = self.parse_static_expression()?;
                let alias = AstAlias { to: variable, from: expression };
                Ok(AstNodeType::Alias(Box::new(alias)))
            },
            TokenType::VariableAssignment => {
                let variable = AstVariable { name: variable_name };
                self.next_token();
                let expression = self.parse_expression()?;
                let assignment = AstAssignment { to: variable, from: expression };
                Ok(AstNodeType::Assignment(Box::new(assignment)))
            },
            _ => self.fail("Unexpected character when parsing an assignment"),
        }
    }

    /// Reads the arguments of a call, the closing bracket included.
    #[verifier::spinoff_prover]
    fn parse_call_arguments(&mut self) -> (res: Result<Vec<AstNodeType>, ParsingError>)
        requires
            old(self).wf(),
        ensures
            final(self).reads_on(old(self)),
            match res {
                Ok(arguments) => call_arguments(old(self).stream(), old(self).place()) == Ok::<
                    (Seq<Node>, nat),
                    ParsingErrorView,
                >((node_views(arguments@), (final(self).place() - old(self).place()) as nat)),
                Err(e) => call_arguments(old(self).stream(), old(self).place()) == Err::<
                    (Seq<Node>, nat),
                    ParsingErrorView,
                >(e@),
            },
        decreases left(old(self).stream(), old(self).place()), 0nat,
    {
        let ghost ts = self.stream();
        let ghost start = self.place();
        let mut arguments: Vec<AstNodeType> = Vec::new();
        proof {
            lemma_after_nothing(call_arguments(ts, start));
            assert(node_views(arguments@) =~= Seq::<Node>::empty());
        }
        loop
            invariant_except_break
                call_arguments(ts, start) == after(
                    node_views(arguments@),
                    (self.place() - start) as nat,
                    call_arguments(ts, self.place()),
                ),
            invariant
                self.wf(),
                self.stream() == ts,
                ts == old(self).stream(),
                start == old(self).place(),
                start <= self.place(),
            ensures
                call_arguments(ts, start) == Ok::<(Seq<Node>, nat), ParsingErrorView>(
                    (node_views(arguments@), (self.place() - start) as nat),
                ),
            decreases left(ts, self.place()),
        {
            let ghost at = self.place();
            let ghost before = node_views(arguments@);
            match self.next_token() {
                None => {
                    return self.fail("Unexpected end of stream when parsing statement");
                },
                Some(token) => {
                    if token.get_type() == TokenType::CloseParenthesis {
                        assert(before + Seq::<Node>::empty() =~= before);
                        break ;
                    }
                    let expression = self.parse_expression()?;
                    let ghost argument = expression@;
                    let ghost used = (self.place() - at - 1) as nat;
                    arguments.push(expression);
                    assert(node_views(arguments@) =~= before.push(argument));
                    match self.peek_type() {
                        Some(TokenType::ParameterDivider) => {
                            self.next_token();
                            proof {
                                lemma_after_first(
                                    before,
                                    (at - start) as nat,
                                    argument,
                                    call_arguments(ts, at + 2 + used),
                                    2 + used,
                                );
                            }
                        },
                        Some(TokenType::CloseParenthesis) => {
                            proof {
                                lemma_after_first(
                                    before,
                                    (at - start) as nat,
                                    argument,
                                    call_arguments(ts, at + 1 + used),
                                    1 + used,
                                );
                            }
                        },
                        _ => {
                            return self.fail(
                                "Unexpected character when parsing function call arguments",
                            );
                        },
                    }
                },
            }
        }
        Ok(arguments)
    }

    #[verifier::spinoff_prover]
    fn parse_function_call(&mut self) -> (res: Result<AstNodeType, ParsingError>)
        requires
            old(self).wf(),
            kind_at(old(self).stream(), old(self).place()) == Some(TokenType::OpenParenthesis),
        ensures
            final(self).follows(
                old(self),
                res,
                function_call(old(self).stream(), old(self).place()),
            ),
        decreases left(old(self).stream(), old(self).place()), 3nat,
    {
        let function_name = self.current().get_text();
        self.next_token();
        let arguments = self.parse_call_arguments()?;
        let body = match self.peek_type() {
            Some(TokenType::OpenBlock) => {
                self.next_token();
                let block = self.parse_block_raw(true)?;
                Some(block)
            },
            _ => None,
        };
        let call = AstFunctionCall { name: function_name, arguments: arguments, body: body };
        Ok(AstNodeType::FunctionCall(Box::new(call)))
    }

    #[verifier::spinoff_prover]
    fn parse_named(&mut self) -> (res: Result<AstNodeType, ParsingError>)
        requires
            old(self).wf(),
        ensures
            final(self).follows(old(self), res, named(old(self).stream(), old(self).place())),
        decreases left(old(self).stream(), old(self).place()), 4nat,
    {
        match self.peek_type() {
            Some(kind) => match kind {
                TokenType::Symbol | TokenType::VariableAssignment | TokenType::StaticAssignment => {
                    self.parse_assignment()
                },
                TokenType::OpenParenthesis => self.parse_function_call(),
                _ => self.parse_expression(),
            },
            None => self.fail("Unexpected end of stream when parsing a variable"),
        }
    }

    /// Reads one statement, its first token included.
    #[verifier::spinoff_prover]
    fn parse_statement(&mut self) -> (res: Result<AstNodeType, ParsingError>)
        requires
            old(self).wf(),
            old(self).place() < old(self).stream().len(),
        ensures
            final(self).reads_on(old(self)),
            match res {
                Ok(node) => statement(old(self).stream(), old(self).place() + 1) == Ok::<
                    (Node, nat),
                    ParsingErrorView,
                >((node@, (final(self).place() - old(self).place() - 1) as nat))
                    && final(self).place() > old(self).place(),
                Err(e) => statement(old(self).stream(), old(self).place() + 1) == Err::<
                    (Node, nat),
                    ParsingErrorView,
                >(e@),
            },
        decreases left(old(self).stream(), old(self).place() + 1), 5nat,
    {
        let token = match self.next_token() {
            Some(token) => token,
            None => {
                return self.fail("Unexpected end of stream when parsing statement");
            },
        };
        let head = match token.get_type() {
            TokenType::Alphanumeric => self.parse_named()?,
            TokenType::OpenBlock => {
                return self.parse_block();
            },
            TokenType::EndOfStatement => {
                let null = AstNullValue {  };
                return Ok(AstNodeType::NullValue(Box::new(null)));
            },
            _ => self.parse_expression()?,
        };
        let evaluatable = self.parse_operator_chain(head)?;
        match self.next_token() {
            Some(end) => {
                if end.get_type() == TokenType::EndOfStatement {
                    Ok(evaluatable)
                } else {
                    self.fail("Statements must end with a ; token")
                }
            },
            None => self.fail("Unexpected end of stream when parsing statement"),
        }
    }

    /// Reads the statements of a block up to the bracket that closes it;
    /// the outermost block also ends where the tokens end.
    #[verifier::spinoff_prover]
    fn parse_block_raw(&mut self, nested: bool) -> (res: Result<AstBlock, ParsingError>)
        requires
            old(self).wf(),
        ensures
            final(self).reads_on(old(self)),
            match res {
                Ok(block) => block_items(old(self).stream(), old(self).place(), nested) == Ok::<
                    (Seq<Node>, nat),
                    ParsingErrorView,
                >((block@, (final(self).place() - old(self).place()) as nat)),
                Err(e) => block_items(old(self).stream(), old(self).place(), nested) == Err::<
                    (Seq<Node>, nat),
                    ParsingErrorView,
                >(e@),
            },
        decreases left(old(self).stream(), old(self).place()), 0nat,
    {
        let ghost ts = self.stream();
        let ghost start = self.place();
        let mut block = AstBlock::new();
        proof {
            lemma_after_nothing(block_items(ts, start, nested));
            assert(node_views(block.statements@) =~= Seq::<Node>::empty());
        }
        loop
            invariant_except_break
                block_items(ts, start, nested) == after(
                    node_views(block.statements@),
                    (self.place() - start) as nat,
                    block_items(ts, self.place(), nested),
                ),
            invariant
                self.wf(),
                self.stream() == ts,
                ts == old(self).stream(),
                start == old(self).place(),
                start <= self.place(),
            ensures
                self.wf(),
                self.stream() == ts,
                start <= self.place(),
                block_items(ts, start, nested) == Ok::<(Seq<Node>, nat), ParsingErrorView>(
                    (node_views(block.statements@), (self.place() - start) as nat),
                ),
            decreases left(ts, self.place()),
        {
            let ghost at = self.place();
            let ghost before = node_views(block.statements@);
            match self.peek_type() {
                None => {
                    if nested {
                        return self.fail("Unexpected end of stream when parsing a block");
                    }
                    assert(before + Seq::<Node>::empty() =~= before);
                    break ;
                },
                Some(TokenType::CloseBlock) => {
                    self.next_token();
                    assert(before + Seq::<Node>::empty() =~= before);
                    break ;
                },
                Some(TokenType::Comment) => {
                    self.next_token();
                },
                Some(_) => {
                    let evaluatable = self.parse_statement()?;
                    let ghost node = evaluatable@;
                    let ghost used = (self.place() - at - 1) as nat;
                    block.statements.push(evaluatable);
                    proof {
                        assert(node_views(block.statements@) =~= before.push(node));
                        lemma_after_first(
                            before,
                            (at - start) as nat,
                            node,
                            block_items(ts, at + 1 + used, nested),
                            1 + used,
                        );
                    }
                },
            }
        }
        Ok(block)
    }

    /// Reads a nested block, whose opening bracket was read last.
    fn parse_block(&mut self) -> (res: Result<AstNodeType, ParsingError>)
        requires
            old(self).wf(),
        ensures
            final(self).reads_on(old(self)),
            match res {
                Ok(node) => block_items(old(self).stream(), old(self).place(), true) == Ok::<
                    (Seq<Node>, nat),
                    ParsingErrorView,
                >((node@->Block_0, (final(self).place() - old(self).place()) as nat))
                    && node@ is Block,
                Err(e) => block_items(old(self).stream(), old(self).place(), true) == Err::<
                    (Seq<Node>, nat),
                    ParsingErrorView,
                >(e@),
            },
        decreases left(old(self).stream(), old(self).place()), 1nat,
    {
        let block = self.parse_block_raw(true)?;
        Ok(AstNodeType::Block(Box::new(block)))
    }

    /// Reads all the tokens as the statements of the outermost block.
    fn parse(&mut self) -> (res: Result<Ast, ParsingError>)
        requires
            old(self).wf(),
            old(self).place() == 0,
        ensures
            match res {
                Ok(ast) => syntax_tree(old(self).stream()) == Ok::<Node, ParsingErrorView>(ast@),
                Err(e) => syntax_tree(old(self).stream()) == Err::<Node, ParsingErrorView>(e@),
            },
    {
        let block = self.parse_block_raw(false)?;
        let root = AstNodeType::Block(Box::new(block));
        Ok(Ast { root: root })
    }
}

impl AstBlock {
    /// A block without statements.
    pub fn new() -> (res: AstBlock)
        ensures
            res.statements@.len() == 0,
    {
        AstBlock { statements: Vec::new() }
    }
}

/// Builds the syntax tree of a list of tokens: the outermost block with its
/// statements, or the first failure with the token at which it was found.
pub fn parse(tokens: &Vec<Token>) -> (res: Result<Ast, ParsingError>)
    ensures
        match res {
            Ok(ast) => syntax_tree(views(tokens@)) == Ok::<Node, ParsingErrorView>(ast@),
            Err(e) => syntax_tree(views(tokens@)) == Err::<Node, ParsingErrorView>(e@),
        },
{
    let null_token = Token::null();
    let mut parser = Parser::new(tokens, &null_token);
    parser.parse()
}

} // verus!
