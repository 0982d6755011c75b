use vstd::prelude::*;
use crate::interp::Value;
use crate::grammar::{
    climb, expression, kind_at, operator, operator_chain, operator_of, partial_expression,
    precedence,
};
use crate::parser::{AstOperator, Node, ParsingErrorView};
use crate::semantics::{
    bind, bind_all, budget, dispatch, enter, eval, eval_all, fails, gives, initial_heap, names_of,
    open_scope, resolve, run_block, all_names, Function, Heap, Origin, Scope, Setting, Step,
    Stop,
};
use crate::spacing::lemma_token_within;
use crate::tokenizer::{
    lex, lex_from, scan, string_length, token_at, Scan, TokenType, TokenView,
    TokenizationErrorView,
};

verus! {

/// A character that neither ends a string literal nor escapes.
pub open spec fn is_plain(c: char) -> bool {
    c != '"' && c != '\\'
}

/// A string literal that holds `a`, an escaped quote and `b`.
pub open spec fn quoted_with_escape(a: Seq<char>, b: Seq<char>) -> Seq<char> {
    seq!['"'] + a + seq!['\\', '"'] + b + seq!['"']
}

/// Plain characters belong to the string literal that they stand in.
proof fn lemma_plain_stretch(s: Seq<char>, from: int, n: nat)
    requires
        0 <= from,
        from + n <= s.len(),
        forall|k: int| from <= k < from + n ==> is_plain(#[trigger] s[k]),
    ensures
        string_length(s, from) == (match string_length(s, from + n) {
            Some(rest) => Some(rest + n),
            None => None,
        }),
    decreases n,
{
    if n > 0 {
        assert(is_plain(s[from]));
        lemma_plain_stretch(s, from + 1, (n - 1) as nat);
    }
}

/// A quote behind a backslash does not end a string literal: a literal whose
/// text holds an escaped quote among characters that are neither quotes nor
/// backslashes is read as one string token, whose text is the whole literal
/// with the backslash and the quote in it.
pub proof fn lemma_escaped_quote_stays_in_string(a: Seq<char>, b: Seq<char>)
    requires
        forall|i: int| 0 <= i < a.len() ==> is_plain(#[trigger] a[i]),
        forall|i: int| 0 <= i < b.len() ==> is_plain(#[trigger] b[i]),
    ensures
        ({
            let s = quoted_with_escape(a, b);
            let token = token_at(s, 0, TokenType::StaticString, (s.len() - 1) as nat);
            &&& lex(s) == Ok::<Seq<TokenView>, TokenizationErrorView>(seq![token])
            &&& token.text == s
        }),
{
    let s = quoted_with_escape(a, b);
    let escape: int = (a.len() + 1) as int;
    let end: int = (escape + 2 + b.len()) as int;
    assert(s.len() == end + 1);
    assert(s[0] == '"');
    assert(s[escape] == '\\');
    assert(s[escape + 1] == '"');
    assert(s[end] == '"');
    assert forall|k: int| 1 <= k < escape implies is_plain(#[trigger] s[k]) by {
        assert(s[k] == a[k - 1]);
    }
    assert forall|k: int| escape + 2 <= k < end implies is_plain(#[trigger] s[k]) by {
        assert(s[k] == b[k - escape - 2]);
    }
    lemma_plain_stretch(s, escape + 2, b.len());
    assert(string_length(s, end) == Some(1nat));
    assert(string_length(s, escape + 2) == Some((1 + b.len()) as nat));
    assert(string_length(s, escape) == Some((3 + b.len()) as nat));
    lemma_plain_stretch(s, 1, a.len());
    assert(string_length(s, 1) == Some(end as nat));
    assert(scan(s, 0) == Scan::Token { kind: TokenType::StaticString, extra: end as nat });
    assert(lex_from(s, end + 1) == Ok::<Seq<TokenView>, TokenizationErrorView>(Seq::empty()));
    let token = token_at(s, 0, TokenType::StaticString, end as nat);
    assert(seq![token] + Seq::<TokenView>::empty() =~= seq![token]);
    assert(token.text =~= s);
}

/// From place `from` on, the text is made of units, each a backslash with the
/// character behind it or one other character, and none of them is a quote.
pub open spec fn is_string_body(body: Seq<char>, from: int) -> bool
    decreases body.len() - from,
{
    if from >= body.len() {
        from == body.len()
    } else if body[from] == '"' {
        false
    } else if body[from] == '\\' {
        from + 1 < body.len() && is_string_body(body, from + 2)
    } else {
        is_string_body(body, from + 1)
    }
}

proof fn lemma_body_stretch(s: Seq<char>, body: Seq<char>, from: int)
    requires
        0 <= from <= body.len(),
        is_string_body(body, from),
        s.len() >= body.len() + 2,
        forall|k: int| 0 <= k < body.len() ==> s[k + 1] == #[trigger] body[k],
        s[body.len() as int + 1] == '"',
    ensures
        string_length(s, from + 1) == Some((body.len() - from + 1) as nat),
    decreases body.len() - from,
{
    if from < body.len() {
        assert(s[from + 1] == body[from]);
        if body[from] == '\\' {
            lemma_body_stretch(s, body, from + 2);
        } else {
            lemma_body_stretch(s, body, from + 1);
        }
    }
}

/// A string literal ends at its first quote that no backslash escapes: where
/// a quote is followed by a body of units without a quote, by a quote and by
/// anything else, the lexer finds one string token there, whose text is the
/// two quotes with the body between them, and what follows is left to be
/// read.
pub proof fn lemma_string_literal_is_one_token(body: Seq<char>, tail: Seq<char>)
    requires
        is_string_body(body, 0),
    ensures
        ({
            let s = seq!['"'] + body + seq!['"'] + tail;
            &&& scan(s, 0) == Scan::Token {
                kind: TokenType::StaticString,
                extra: (body.len() + 1) as nat,
            }
            &&& token_at(s, 0, TokenType::StaticString, (body.len() + 1) as nat).text == seq!['"']
                + body + seq!['"']
        }),
{
    let s = seq!['"'] + body + seq!['"'] + tail;
    assert(s[0] == '"');
    assert forall|k: int| 0 <= k < body.len() implies s[k + 1] == #[trigger] body[k] by {}
    assert(s[body.len() as int + 1] == '"');
    lemma_body_stretch(s, body, 0);
    assert(s.subrange(0, body.len() as int + 2) =~= seq!['"'] + body + seq!['"']);
}

/// A token that is no sentinel and whose text is a stretch of the source, at
/// least one character long.
pub open spec fn is_piece_of(token: TokenView, s: Seq<char>) -> bool {
    &&& !token.null_value
    &&& token.text.len() >= 1
    &&& exists|i: int|
        0 <= i && i + token.text.len() <= s.len() && token.text == #[trigger] s.subrange(
            i,
            i + token.text.len(),
        )
}

proof fn lemma_tokens_from(s: Seq<char>, i: int)
    requires
        0 <= i,
        lex_from(s, i) is Ok,
    ensures
        forall|k: int|
            0 <= k < lex_from(s, i)->Ok_0.len() ==> is_piece_of(
                #[trigger] lex_from(s, i)->Ok_0[k],
                s,
            ),
    decreases s.len() - i,
{
    if i < s.len() {
        match scan(s, i) {
            Scan::Skip => {
                lemma_tokens_from(s, i + 1);
            },
            Scan::Token { kind, extra } => {
                lemma_token_within(s, i);
                lemma_tokens_from(s, i + 1 + extra);
                let first = token_at(s, i, kind, extra);
                let rest = lex_from(s, i + 1 + extra)->Ok_0;
                assert(first.text == s.subrange(i, i + first.text.len()));
                assert forall|k: int| 0 <= k < (seq![first] + rest).len() implies is_piece_of(
                    #[trigger] (seq![first] + rest)[k],
                    s,
                ) by {
                    if k > 0 {
                        assert((seq![first] + rest)[k] == rest[k - 1]);
                    }
                }
            },
            Scan::Failure { .. } => {},
        }
    }
}

/// Every token that the lexer gives carries text: it is no sentinel, and its
/// text is a stretch of the source, at least one character long.
pub proof fn lemma_tokens_are_source_text(s: Seq<char>)
    requires
        lex(s) is Ok,
    ensures
        forall|k: int| 0 <= k < lex(s)->Ok_0.len() ==> is_piece_of(#[trigger] lex(s)->Ok_0[k], s),
{
    lemma_tokens_from(s, 0);
}

/// An operator between two operands.
pub open spec fn binary(operator: AstOperator, lhs: Node, rhs: Node) -> Node {
    Node::OperatorCall { operator: operator, lhs: Box::new(lhs), rhs: Box::new(rhs) }
}

/// Of two operators around an operand, the one that binds tighter takes the
/// operand, and the first one takes it where both bind alike: for names `x`,
/// `y` and `z`, `x a y b z` is `x a (y b z)` where `b` binds strictly tighter
/// than `a`, and `(x a y) b z` otherwise.
pub proof fn lemma_tighter_operator_takes_the_operand(
    tokens: Seq<TokenView>,
    a: AstOperator,
    b: AstOperator,
)
    requires
        tokens.len() == 6,
        tokens[0].token_type == TokenType::Alphanumeric,
        tokens[1].token_type == TokenType::Operator,
        tokens[2].token_type == TokenType::Alphanumeric,
        tokens[3].token_type == TokenType::Operator,
        tokens[4].token_type == TokenType::Alphanumeric,
        tokens[5].token_type == TokenType::EndOfStatement,
        operator_of(tokens[1].text) == Some(a),
        operator_of(tokens[3].text) == Some(b),
    ensures
        ({
            let x = Node::Variable(tokens[0].text);
            let y = Node::Variable(tokens[2].text);
            let z = Node::Variable(tokens[4].text);
            expression(tokens, 1) == Ok::<(Node, nat), ParsingErrorView>(
                (
                    if precedence(a) < precedence(b) {
                        binary(a, x, binary(b, y, z))
                    } else {
                        binary(b, binary(a, x, y), z)
                    },
                    4,
                ),
            )
        }),
{
    let x = Node::Variable(tokens[0].text);
    let y = Node::Variable(tokens[2].text);
    let z = Node::Variable(tokens[4].text);
    reveal_with_fuel(operator_chain, 3);
    reveal_with_fuel(operator, 3);
    reveal_with_fuel(climb, 3);
    reveal_with_fuel(partial_expression, 3);
    assert(partial_expression(tokens, 1) == Ok::<(Node, nat), ParsingErrorView>((x, 0)));
    assert(partial_expression(tokens, 3) == Ok::<(Node, nat), ParsingErrorView>((y, 0)));
    assert(partial_expression(tokens, 5) == Ok::<(Node, nat), ParsingErrorView>((z, 0)));
    assert(climb(tokens, 5, tokens[3], z) == Ok::<(Node, nat), ParsingErrorView>((z, 0)));
    assert(climb(tokens, 5, tokens[1], binary(b, y, z)) == Ok::<(Node, nat), ParsingErrorView>(
        (binary(b, y, z), 0),
    ));
    assert(operator_chain(tokens, 5, binary(b, binary(a, x, y), z)) == Ok::<
        (Node, nat),
        ParsingErrorView,
    >((binary(b, binary(a, x, y), z), 0)));
    assert(operator_chain(tokens, 5, binary(a, x, binary(b, y, z))) == Ok::<
        (Node, nat),
        ParsingErrorView,
    >((binary(a, x, binary(b, y, z)), 0)));
    if precedence(a) < precedence(b) {
        assert(operator(tokens, 4, y) == Ok::<(Node, nat), ParsingErrorView>(
            (binary(b, y, z), 1),
        ));
        assert(climb(tokens, 3, tokens[1], y) == Ok::<(Node, nat), ParsingErrorView>(
            (binary(b, y, z), 2),
        ));
        assert(operator(tokens, 2, x) == Ok::<(Node, nat), ParsingErrorView>(
            (binary(a, x, binary(b, y, z)), 3),
        ));
    } else {
        assert(climb(tokens, 3, tokens[1], y) == Ok::<(Node, nat), ParsingErrorView>((y, 0)));
        assert(operator(tokens, 2, x) == Ok::<(Node, nat), ParsingErrorView>(
            (binary(a, x, y), 1),
        ));
        assert(operator(tokens, 4, binary(a, x, y)) == Ok::<(Node, nat), ParsingErrorView>(
            (binary(b, binary(a, x, y), z), 1),
        ));
        assert(operator_chain(tokens, 3, binary(a, x, y)) == Ok::<(Node, nat), ParsingErrorView>(
            (binary(b, binary(a, x, y), z), 2),
        ));
    }
    assert(operator_chain(tokens, 1, x) == expression(tokens, 1));
}

/// The operator of the `k`-th operator token of a chain that starts at token
/// `first`: a name, then operators and names in turn.
pub open spec fn chain_operator(tokens: Seq<TokenView>, first: int, k: int) -> AstOperator {
    operator_of(tokens[first + 2 * k - 1].text)->Some_0
}

/// From token `first` on stand a name and `count` operators, each with a
/// name behind it; no operator binds tighter than the one before it, and no
/// operator follows the last name.
pub open spec fn is_level_chain(tokens: Seq<TokenView>, first: int, count: nat) -> bool {
    &&& 0 <= first
    &&& first + 2 * count < tokens.len()
    &&& forall|k: int|
        0 <= k <= count ==> (#[trigger] tokens[first + 2 * k]).token_type
            == TokenType::Alphanumeric
    &&& forall|k: int|
        1 <= k <= count ==> (#[trigger] tokens[first + 2 * k - 1]).token_type
            == TokenType::Operator && operator_of(tokens[first + 2 * k - 1].text) is Some
    &&& forall|k: int|
        1 <= k < count ==> precedence(#[trigger] chain_operator(tokens, first, k + 1))
            <= precedence(chain_operator(tokens, first, k))
    &&& first + 2 * count + 1 < tokens.len() ==> tokens[first + 2 * count + 1].token_type
        != TokenType::Operator
}

/// The first `n` operators of a chain applied from left to right.
pub open spec fn left_fold(tokens: Seq<TokenView>, first: int, n: nat) -> Node
    decreases n,
{
    if n == 0 {
        Node::Variable(tokens[first].text)
    } else {
        binary(
            chain_operator(tokens, first, n as int),
            left_fold(tokens, first, (n - 1) as nat),
            Node::Variable(tokens[first + 2 * n].text),
        )
    }
}

proof fn lemma_chain_from(tokens: Seq<TokenView>, first: int, count: nat, done: nat)
    requires
        is_level_chain(tokens, first, count),
        done <= count,
    ensures
        operator_chain(tokens, first + 1 + 2 * done, left_fold(tokens, first, done)) == Ok::<
            (Node, nat),
            ParsingErrorView,
        >((left_fold(tokens, first, count), (2 * (count - done)) as nat)),
    decreases count - done,
{
    let at = first + 1 + 2 * done;
    let lhs = left_fold(tokens, first, done);
    if done < count {
        let k: int = (done + 1) as int;
        let token = tokens[first + 2 * k - 1];
        let name = tokens[first + 2 * k];
        assert(token.token_type == TokenType::Operator && operator_of(token.text) is Some);
        assert(name.token_type == TokenType::Alphanumeric);
        let rhs = Node::Variable(name.text);
        reveal_with_fuel(operator, 2);
        reveal_with_fuel(partial_expression, 2);
        reveal_with_fuel(climb, 2);
        assert(partial_expression(tokens, at + 2) == Ok::<(Node, nat), ParsingErrorView>((rhs, 0)));
        if k < count {
            let next = tokens[first + 2 * (k + 1) - 1];
            assert(next.token_type == TokenType::Operator && operator_of(next.text) is Some);
            assert(precedence(chain_operator(tokens, first, k + 1)) <= precedence(
                chain_operator(tokens, first, k),
            ));
        }
        assert(climb(tokens, at + 2, token, rhs) == Ok::<(Node, nat), ParsingErrorView>((rhs, 0)));
        assert(operator(tokens, at + 1, lhs) == Ok::<(Node, nat), ParsingErrorView>(
            (left_fold(tokens, first, k as nat), 1),
        ));
        lemma_chain_from(tokens, first, count, k as nat);
    }
}

/// Operators that do not bind tighter than the one before them are applied
/// from left to right, however many there are: a name followed by operators
/// with names, none of which binds tighter than the one before it, is the
/// first operator applied to the first two names, then the second applied to
/// that and the third name, and so on. In particular operators that bind
/// alike group to the left.
pub proof fn lemma_level_chain_groups_to_the_left(
    tokens: Seq<TokenView>,
    first: int,
    count: nat,
)
    requires
        is_level_chain(tokens, first, count),
    ensures
        expression(tokens, first + 1) == Ok::<(Node, nat), ParsingErrorView>(
            (left_fold(tokens, first, count), (2 * count) as nat),
        ),
{
    assert(tokens[first + 2 * 0].token_type == TokenType::Alphanumeric);
    assert(partial_expression(tokens, first + 1) == Ok::<(Node, nat), ParsingErrorView>(
        (left_fold(tokens, first, 0), 0),
    ));
    lemma_chain_from(tokens, first, count, 0);
}

/// An operator takes no more into its right operand than what binds
/// strictly tighter: where the token behind the operand is no operator, or
/// an operator that binds no tighter than `below`, the right operand of
/// `below` is the operand alone, and that token is left to be read.
pub proof fn lemma_right_operand_stops(
    tokens: Seq<TokenView>,
    at: int,
    below: TokenView,
    rhs: Node,
)
    requires
        operator_of(below.text) is Some,
        kind_at(tokens, at) == Some(TokenType::Operator) ==> operator_of(tokens[at].text) is Some
            && precedence(operator_of(tokens[at].text)->Some_0) <= precedence(
            operator_of(below.text)->Some_0,
        ),
    ensures
        climb(tokens, at, below, rhs) == Ok::<(Node, nat), ParsingErrorView>((rhs, 0)),
{
}

/// The name of a call that the evaluator answers by itself.
pub open spec fn is_built_in(name: Seq<char>) -> bool {
    name == "while"@ || name == "if"@ || name == "print"@
}

/// A function sees the scope in which it was declared, not the scope from
/// which it is called: where a name stands for the same function in two
/// closures, a call of it with the same values gives the same result and
/// leaves the same heap, from whichever of the two it is made.
pub proof fn lemma_call_ignores_calling_scope(
    name: Seq<char>,
    body: Option<Seq<Node>>,
    values: Seq<Value>,
    here: nat,
    there: nat,
    depth: nat,
    heap: Heap,
    setting: Setting,
)
    requires
        !is_built_in(name),
        resolve(heap.closures, here, name) == resolve(heap.closures, there, name),
    ensures
        dispatch(name, body, values, here, depth, heap, setting) == dispatch(
            name,
            body,
            values,
            there,
            depth,
            heap,
            setting,
        ),
{
}

/// A call evaluates the body of the function as a block in the closure that
/// the declaration made, with the arguments bound there: what the call gives
/// is told by the function, its closure and the values alone, and the closure
/// from which the call is made has no part in it.
pub proof fn lemma_call_runs_in_declaring_scope(
    name: Seq<char>,
    body: Option<Seq<Node>>,
    values: Seq<Value>,
    env: nat,
    depth: nat,
    heap: Heap,
    setting: Setting,
    id: nat,
    closure_id: nat,
)
    requires
        !is_built_in(name),
        resolve(heap.closures, env, name) == Some(
            Value::Function { id: id, closure_id: closure_id },
        ),
    ensures
        dispatch(name, body, values, env, depth, heap, setting) == (match enter(
            id,
            closure_id,
            values,
            depth,
            heap,
            setting,
        ) {
            Ok(entered) => run_block(
                heap.functions[id as int].body,
                closure_id,
                depth + 1,
                entered,
                setting,
            ),
            Err(stop) => Step { result: Err(stop), heap: heap },
        }),
{
}

/// Closure `id` or a closure around it has a variable of the name.
pub open spec fn is_bound_around(closures: Seq<Scope>, id: nat, name: Seq<char>) -> bool
    decreases id,
{
    &&& id < closures.len()
    &&& (closures[id as int].variables.contains_key(name) || match closures[id as int].parent {
        Some(parent) => parent < id && is_bound_around(closures, parent, name),
        None => false,
    })
}

/// A name has a value exactly where a closure on the way outwards binds it.
pub proof fn lemma_resolve_finds_what_is_bound(closures: Seq<Scope>, id: nat, name: Seq<char>)
    ensures
        resolve(closures, id, name) is Some <==> is_bound_around(closures, id, name),
    decreases id,
{
    if id < closures.len() && !closures[id as int].variables.contains_key(name) {
        match closures[id as int].parent {
            Some(parent) => {
                if parent < id {
                    lemma_resolve_finds_what_is_bound(closures, parent, name);
                }
            },
            None => {},
        }
    }
}

/// A name gives its value or a failure that names it, never a value made up:
/// where the current closure or one around it binds the name, the name gives
/// the value of the nearest such binding; where none does, it fails with the
/// name in the reason. The heap stays as it was.
pub proof fn lemma_variable_is_found_or_named(
    name: Seq<char>,
    env: nat,
    depth: nat,
    heap: Heap,
    setting: Setting,
)
    ensures
        is_bound_around(heap.closures, env, name) ==> resolve(heap.closures, env, name) is Some
            && eval(Node::Variable(name), env, depth, heap, setting) == gives(
            resolve(heap.closures, env, name)->Some_0,
            heap,
        ),
        !is_bound_around(heap.closures, env, name) ==> eval(
            Node::Variable(name),
            env,
            depth,
            heap,
            setting,
        ) == fails::<Value>("Unable to find variable "@ + name, heap),
{
    lemma_resolve_finds_what_is_bound(heap.closures, env, name);
}

/// The second heap holds what the first holds and maybe more: no closure is
/// gone, lies elsewhere or was made by something else, and each table starts
/// with what it held before.
pub open spec fn extends(before: Heap, after: Heap) -> bool {
    &&& before.closures.len() <= after.closures.len()
    &&& forall|i: int|
        0 <= i < before.closures.len() ==> (#[trigger] after.closures[i]).parent
            == before.closures[i].parent && after.closures[i].creator
            == before.closures[i].creator
    &&& before.functions.is_prefix_of(after.functions)
    &&& before.structs.is_prefix_of(after.structs)
    &&& before.printed.is_prefix_of(after.printed)
}

proof fn lemma_extends_twice(a: Heap, b: Heap, c: Heap)
    requires
        extends(a, b),
        extends(b, c),
    ensures
        extends(a, c),
{
    assert forall|i: int| 0 <= i < a.closures.len() implies (#[trigger] c.closures[i]).parent
        == a.closures[i].parent && c.closures[i].creator == a.closures[i].creator by {
        assert(b.closures[i].parent == a.closures[i].parent);
    }
    assert(a.functions =~= c.functions.subrange(0, a.functions.len() as int));
    assert(a.structs =~= c.structs.subrange(0, a.structs.len() as int));
    assert(a.printed =~= c.printed.subrange(0, a.printed.len() as int));
}

proof fn lemma_bind_all_extends(
    heap: Heap,
    id: nat,
    names: Seq<Seq<char>>,
    values: Seq<Value>,
    n: nat,
)
    ensures
        extends(heap, bind_all(heap, id, names, values, n)),
    decreases n,
{
    if n > 0 {
        let before = bind_all(heap, id, names, values, (n - 1) as nat);
        lemma_bind_all_extends(heap, id, names, values, (n - 1) as nat);
        assert(extends(before, bind(before, id, names[n - 1], values[n - 1])));
        lemma_extends_twice(heap, before, bind(before, id, names[n - 1], values[n - 1]));
    }
}

/// Evaluation never takes anything away: the closures, the declarations and
/// the printed values that were there before a node was evaluated are there
/// afterwards, at their places, whether the evaluation gave a value or not.
pub proof fn lemma_eval_extends(node: Node, env: nat, depth: nat, heap: Heap, setting: Setting)
    ensures
        extends(heap, eval(node, env, depth, heap, setting).heap),
    decreases budget(setting, depth), node, 1nat,
{
    match node {
        Node::Block(items) => {
            lemma_run_block_extends(items, env, depth, heap, setting);
        },
        Node::FunctionCall { name, arguments, body } => {
            let given = eval_all(arguments, 0, env, depth, heap, setting);
            lemma_eval_all_extends(arguments, 0, env, depth, heap, setting);
            match given.result {
                Ok(values) => {
                    lemma_dispatch_extends(name, body, values, env, depth, given.heap, setting);
                    lemma_extends_twice(
                        heap,
                        given.heap,
                        dispatch(name, body, values, env, depth, given.heap, setting).heap,
                    );
                },
                Err(_) => {},
            }
        },
        Node::Assignment { to, from } => {
            let right = eval(*from, env, depth, heap, setting);
            lemma_eval_extends(*from, env, depth, heap, setting);
            match right.result {
                Ok(value) => {
                    assert(extends(right.heap, bind(right.heap, env, to, value)));
                    lemma_extends_twice(heap, right.heap, bind(right.heap, env, to, value));
                },
                Err(_) => {},
            }
        },
        Node::Alias { to, from } => {
            let right = eval(*from, env, depth, heap, setting);
            lemma_eval_extends(*from, env, depth, heap, setting);
            match right.result {
                Ok(value) => {
                    assert(extends(right.heap, bind(right.heap, env, to, value)));
                    lemma_extends_twice(heap, right.heap, bind(right.heap, env, to, value));
                },
                Err(_) => {},
            }
        },
        Node::OperatorCall { operator, lhs, rhs } => {
            let left = eval(*lhs, env, depth, heap, setting);
            lemma_eval_extends(*lhs, env, depth, heap, setting);
            match left.result {
                Ok(_) => {
                    lemma_eval_extends(*rhs, env, depth, left.heap, setting);
                    lemma_extends_twice(
                        heap,
                        left.heap,
                        eval(*rhs, env, depth, left.heap, setting).heap,
                    );
                },
                Err(_) => {},
            }
        },
        _ => {},
    }
}

proof fn lemma_eval_all_extends(
    nodes: Seq<Node>,
    from: nat,
    env: nat,
    depth: nat,
    heap: Heap,
    setting: Setting,
)
    ensures
        extends(heap, eval_all(nodes, from, env, depth, heap, setting).heap),
    decreases budget(setting, depth), nodes, nodes.len() - from,
{
    if from < nodes.len() {
        let first = eval(nodes[from as int], env, depth, heap, setting);
        lemma_eval_extends(nodes[from as int], env, depth, heap, setting);
        match first.result {
            Ok(_) => {
                lemma_eval_all_extends(nodes, from + 1, env, depth, first.heap, setting);
                lemma_extends_twice(
                    heap,
                    first.heap,
                    eval_all(nodes, from + 1, env, depth, first.heap, setting).heap,
                );
            },
            Err(_) => {},
        }
    }
}

proof fn lemma_run_block_extends(
    items: Seq<Node>,
    env: nat,
    depth: nat,
    heap: Heap,
    setting: Setting,
)
    ensures
        extends(heap, run_block(items, env, depth, heap, setting).heap),
    decreases budget(setting, depth), items, items.len() + 1,
{
    let opened = open_scope(heap, env, Origin::Block);
    assert(extends(heap, opened));
    if depth <= setting.stack_size {
        lemma_eval_all_extends(items, 0, heap.closures.len(), depth + 1, opened, setting);
        lemma_extends_twice(
            heap,
            opened,
            eval_all(items, 0, heap.closures.len(), depth + 1, opened, setting).heap,
        );
    }
}

proof fn lemma_dispatch_extends(
    name: Seq<char>,
    body: Option<Seq<Node>>,
    values: Seq<Value>,
    env: nat,
    depth: nat,
    heap: Heap,
    setting: Setting,
)
    ensures
        extends(heap, dispatch(name, body, values, env, depth, heap, setting).heap),
    decreases budget(setting, depth), body, 0nat,
{
    if name == "while"@ {
    } else if name == "if"@ {
        if values.len() == 1 {
            match body {
                Some(items) => {
                    lemma_run_block_extends(items, env, depth, heap, setting);
                },
                None => {},
            }
        }
    } else if name == "print"@ {
        assert(heap.printed =~= (heap.printed + values).subrange(
            0,
            heap.printed.len() as int,
        ));
    } else {
        match resolve(heap.closures, env, name) {
            Some(Value::Function { id, closure_id }) => {
                match enter(id, closure_id, values, depth, heap, setting) {
                    Ok(entered) => {
                        lemma_bind_all_extends(
                            heap,
                            closure_id,
                            names_of(
                                heap.functions[id as int].arguments,
                            ),
                            values,
                            values.len(),
                        );
                        lemma_run_block_extends(
                            heap.functions[id as int].body,
                            closure_id,
                            depth + 1,
                            entered,
                            setting,
                        );
                        lemma_extends_twice(
                            heap,
                            entered,
                            run_block(
                                heap.functions[id as int].body,
                                closure_id,
                                depth + 1,
                                entered,
                                setting,
                            ).heap,
                        );
                    },
                    Err(_) => {},
                }
            },
            _ => {},
        }
    }
}

/// A function value names the closure that the declaration of its function
/// made.
pub open spec fn value_sound(value: Value, heap: Heap) -> bool {
    match value {
        Value::Function { id, closure_id } => closure_id < heap.closures.len()
            && heap.closures[closure_id as int].creator == Origin::Function(id),
        _ => true,
    }
}

pub open spec fn values_sound(values: Seq<Value>, heap: Heap) -> bool {
    forall|i: int| 0 <= i < values.len() ==> value_sound(#[trigger] values[i], heap)
}

/// Every function value that a variable holds names the closure of its
/// function, and every closure of a function is that of a function in the
/// table.
pub open spec fn heap_sound(heap: Heap) -> bool {
    &&& forall|i: int, name: Seq<char>|
        0 <= i < heap.closures.len() && heap.closures[i].variables.contains_key(name)
            ==> value_sound(#[trigger] heap.closures[i].variables[name], heap)
    &&& forall|i: int|
        0 <= i < heap.closures.len() ==> match (#[trigger] heap.closures[i]).creator {
            Origin::Function(id) => id < heap.functions.len(),
            _ => true,
        }
}

/// Function `id` declares the name as one of its arguments.
pub open spec fn is_argument(functions: Seq<Function>, id: nat, name: Seq<char>) -> bool {
    id < functions.len() && exists|k: int|
        0 <= k < functions[id as int].arguments.len() && #[trigger] functions[id as int].arguments[k]
            == Node::Variable(name)
}

/// Closure `i` is that of a function, which declares the name as one of its
/// arguments: a call of the function binds the name there.
pub open spec fn takes_argument(heap: Heap, i: int, name: Seq<char>) -> bool {
    match heap.closures[i].creator {
        Origin::Function(id) => is_argument(heap.functions, id, name),
        _ => false,
    }
}

/// The name stands for the same value in both, or for none in both.
pub open spec fn same_at(
    before: Map<Seq<char>, Value>,
    after: Map<Seq<char>, Value>,
    name: Seq<char>,
) -> bool {
    before.contains_key(name) == after.contains_key(name) && (before.contains_key(name)
        ==> before[name] == after[name])
}

/// In the closures that were there before, every name stands for what it
/// stood for, except the arguments of a function in the closure of that
/// function, and except maybe in closure `but`.
pub open spec fn keeps_variables(before: Heap, after: Heap, but: Option<nat>) -> bool {
    forall|i: int, name: Seq<char>|
        0 <= i < before.closures.len() && i < after.closures.len() && Some(i as nat) != but
            && !takes_argument(before, i, name) ==> #[trigger] same_at(
            before.closures[i].variables,
            after.closures[i].variables,
            name,
        )
}

/// The name is an argument of a function in whose closure closure `id` lies,
/// or whose closure it is.
pub open spec fn is_argument_around(heap: Heap, id: nat, name: Seq<char>) -> bool
    decreases id,
{
    &&& id < heap.closures.len()
    &&& (takes_argument(heap, id as int, name) || match heap.closures[id as int].parent {
        Some(parent) => parent < id && is_argument_around(heap, parent, name),
        None => false,
    })
}

proof fn lemma_keeps_twice(a: Heap, b: Heap, c: Heap, but: Option<nat>)
    requires
        heap_sound(a),
        extends(a, b),
        extends(b, c),
        keeps_variables(a, b, but),
        keeps_variables(b, c, but),
    ensures
        keeps_variables(a, c, but),
{
    assert forall|i: int, name: Seq<char>|
        0 <= i < a.closures.len() && i < c.closures.len() && Some(i as nat) != but
            && !takes_argument(a, i, name) implies #[trigger] same_at(
        a.closures[i].variables,
        c.closures[i].variables,
        name,
    ) by {
        assert(b.closures[i].creator == a.closures[i].creator);
        match a.closures[i].creator {
            Origin::Function(id) => {
                assert(b.functions[id as int] == a.functions[id as int]);
            },
            _ => {},
        }
        assert(!takes_argument(b, i, name));
        assert(same_at(a.closures[i].variables, b.closures[i].variables, name));
        assert(same_at(b.closures[i].variables, c.closures[i].variables, name));
    }
}

proof fn lemma_keeps_unless(before: Heap, after: Heap, but: nat)
    requires
        keeps_variables(before, after, None),
    ensures
        keeps_variables(before, after, Some(but)),
{
    assert forall|i: int, name: Seq<char>|
        0 <= i < before.closures.len() && i < after.closures.len() && Some(i as nat) != Some(but)
            && !takes_argument(before, i, name) implies #[trigger] same_at(
        before.closures[i].variables,
        after.closures[i].variables,
        name,
    ) by {}
}

proof fn lemma_value_stays_sound(value: Value, before: Heap, after: Heap)
    requires
        value_sound(value, before),
        extends(before, after),
    ensures
        value_sound(value, after),
{
    match value {
        Value::Function { id, closure_id } => {
            assert(after.closures[closure_id as int].creator
                == before.closures[closure_id as int].creator);
        },
        _ => {},
    }
}

proof fn lemma_resolve_sound(heap: Heap, id: nat, name: Seq<char>)
    requires
        heap_sound(heap),
    ensures
        match resolve(heap.closures, id, name) {
            Some(value) => value_sound(value, heap),
            None => true,
        },
    decreases id,
{
    if id < heap.closures.len() && !heap.closures[id as int].variables.contains_key(name) {
        match heap.closures[id as int].parent {
            Some(parent) => {
                if parent < id {
                    lemma_resolve_sound(heap, parent, name);
                }
            },
            None => {},
        }
    }
}

proof fn lemma_bind_sound(heap: Heap, id: nat, name: Seq<char>, value: Value)
    requires
        heap_sound(heap),
        value_sound(value, heap),
    ensures
        heap_sound(bind(heap, id, name, value)),
        extends(heap, bind(heap, id, name, value)),
        keeps_variables(heap, bind(heap, id, name, value), Some(id)),
        id < heap.closures.len() && takes_argument(heap, id as int, name) ==> keeps_variables(
            heap,
            bind(heap, id, name, value),
            None,
        ),
{
    let after = bind(heap, id, name, value);
    assert forall|i: int, n: Seq<char>|
        0 <= i < after.closures.len() && after.closures[i].variables.contains_key(
            n,
        ) implies value_sound(#[trigger] after.closures[i].variables[n], after) by {
        let held = after.closures[i].variables[n];
        if i == id && n == name {
            lemma_value_stays_sound(value, heap, after);
        } else {
            assert(heap.closures[i].variables.contains_key(n));
            assert(held == heap.closures[i].variables[n]);
            lemma_value_stays_sound(held, heap, after);
        }
    }
    assert forall|i: int| 0 <= i < after.closures.len() implies match (
    #[trigger] after.closures[i]).creator {
        Origin::Function(f) => f < after.functions.len(),
        _ => true,
    } by {
        assert(after.closures[i].creator == heap.closures[i].creator);
    }
    assert forall|i: int, n: Seq<char>|
        0 <= i < heap.closures.len() && i < after.closures.len() && Some(i as nat) != Some(id)
            && !takes_argument(heap, i, n) implies #[trigger] same_at(
        heap.closures[i].variables,
        after.closures[i].variables,
        n,
    ) by {}
    if id < heap.closures.len() && takes_argument(heap, id as int, name) {
        assert forall|i: int, n: Seq<char>|
            0 <= i < heap.closures.len() && i < after.closures.len() && !takes_argument(
                heap,
                i,
                n,
            ) implies #[trigger] same_at(
            heap.closures[i].variables,
            after.closures[i].variables,
            n,
        ) by {}
    }
}

proof fn lemma_bind_all_sound(
    heap: Heap,
    id: nat,
    function: nat,
    values: Seq<Value>,
    n: nat,
)
    requires
        heap_sound(heap),
        values_sound(values, heap),
        n <= values.len(),
        n <= heap.functions[function as int].arguments.len(),
        id < heap.closures.len(),
        heap.closures[id as int].creator == Origin::Function(function),
        all_names(heap.functions[function as int].arguments),
    ensures
        ({
            let after = bind_all(
                heap,
                id,
                names_of(heap.functions[function as int].arguments),
                values,
                n,
            );
            heap_sound(after) && extends(heap, after) && keeps_variables(heap, after, None)
        }),
    decreases n,
{
    let names = names_of(heap.functions[function as int].arguments);
    if n > 0 {
        let before = bind_all(heap, id, names, values, (n - 1) as nat);
        lemma_bind_all_sound(heap, id, function, values, (n - 1) as nat);
        lemma_value_stays_sound(values[n - 1], heap, before);
        assert(before.closures[id as int].creator == heap.closures[id as int].creator);
        assert(before.functions[function as int] == heap.functions[function as int]);
        assert(heap.functions[function as int].arguments[n - 1] is Variable);
        assert(heap.functions[function as int].arguments[n - 1] == Node::Variable(names[n - 1]));
        assert(takes_argument(before, id as int, names[n - 1]));
        lemma_bind_sound(before, id, names[n - 1], values[n - 1]);
        let after = bind(before, id, names[n - 1], values[n - 1]);
        lemma_extends_twice(heap, before, after);
        lemma_keeps_twice(heap, before, after, None);
    } else {
        assert forall|i: int, name: Seq<char>|
            0 <= i < heap.closures.len() && !takes_argument(heap, i, name) implies #[trigger] same_at(
            heap.closures[i].variables,
            heap.closures[i].variables,
            name,
        ) by {}
    }
}

proof fn lemma_open_scope_sound(heap: Heap, parent: nat, creator: Origin)
    requires
        heap_sound(heap),
        match creator {
            Origin::Function(id) => id < heap.functions.len(),
            _ => true,
        },
    ensures
        heap_sound(open_scope(heap, parent, creator)),
        extends(heap, open_scope(heap, parent, creator)),
        keeps_variables(heap, open_scope(heap, parent, creator), None),
{
    let after = open_scope(heap, parent, creator);
    assert forall|i: int, n: Seq<char>|
        0 <= i < after.closures.len() && after.closures[i].variables.contains_key(
            n,
        ) implies value_sound(#[trigger] after.closures[i].variables[n], after) by {
        assert(i < heap.closures.len());
        lemma_value_stays_sound(heap.closures[i].variables[n], heap, after);
    }
    assert forall|i: int| 0 <= i < after.closures.len() implies match (
    #[trigger] after.closures[i]).creator {
        Origin::Function(f) => f < after.functions.len(),
        _ => true,
    } by {
        if i < heap.closures.len() {
            assert(after.closures[i] == heap.closures[i]);
        }
    }
    assert forall|i: int, n: Seq<char>|
        0 <= i < heap.closures.len() && i < after.closures.len() && !takes_argument(
            heap,
            i,
            n,
        ) implies #[trigger] same_at(heap.closures[i].variables, after.closures[i].variables, n) by {
        assert(after.closures[i] == heap.closures[i]);
    }
}

/// Only the closures count: a heap with the same closures and at least the
/// functions keeps what holds of the closures.
proof fn lemma_same_closures_sound(heap: Heap, after: Heap)
    requires
        heap_sound(heap),
        after.closures == heap.closures,
        heap.functions.len() <= after.functions.len(),
    ensures
        heap_sound(after),
        keeps_variables(heap, after, None),
{
    assert forall|i: int, n: Seq<char>|
        0 <= i < after.closures.len() && after.closures[i].variables.contains_key(
            n,
        ) implies value_sound(#[trigger] after.closures[i].variables[n], after) by {
        assert(value_sound(heap.closures[i].variables[n], heap));
    }
    assert forall|i: int, n: Seq<char>|
        0 <= i < heap.closures.len() && i < after.closures.len() && !takes_argument(
            heap,
            i,
            n,
        ) implies #[trigger] same_at(heap.closures[i].variables, after.closures[i].variables, n) by {}
}

/// What holds of a step that started from a sound heap.
spec fn scoped<T>(heap: Heap, step: Step<T>, but: Option<nat>) -> bool {
    &&& heap_sound(step.heap)
    &&& extends(heap, step.heap)
    &&& keeps_variables(heap, step.heap, but)
}

proof fn lemma_eval_scoped(node: Node, env: nat, depth: nat, heap: Heap, setting: Setting)
    requires
        heap_sound(heap),
        env < heap.closures.len(),
    ensures
        scoped(heap, eval(node, env, depth, heap, setting), Some(env)),
        match eval(node, env, depth, heap, setting).result {
            Ok(value) => value_sound(value, eval(node, env, depth, heap, setting).heap),
            Err(_) => true,
        },
    decreases budget(setting, depth), node, 1nat,
{
    lemma_eval_extends(node, env, depth, heap, setting);
    match node {
        Node::Block(items) => {
            lemma_run_block_scoped(items, env, depth, heap, setting);
            lemma_keeps_unless(heap, run_block(items, env, depth, heap, setting).heap, env);
        },
        Node::FunctionCall { name, arguments, body } => {
            let given = eval_all(arguments, 0, env, depth, heap, setting);
            lemma_eval_all_scoped(arguments, 0, env, depth, heap, setting);
            match given.result {
                Ok(values) => {
                    let done = dispatch(name, body, values, env, depth, given.heap, setting);
                    lemma_dispatch_extends(name, body, values, env, depth, given.heap, setting);
                    lemma_dispatch_scoped(name, body, values, env, depth, given.heap, setting);
                    lemma_keeps_unless(given.heap, done.heap, env);
                    lemma_keeps_twice(heap, given.heap, done.heap, Some(env));
                },
                Err(_) => {},
            }
        },
        Node::Variable(name) => {
            lemma_resolve_sound(heap, env, name);
            lemma_same_closures_sound(heap, heap);
            lemma_keeps_unless(heap, heap, env);
        },
        Node::Assignment { to, from } => {
            let right = eval(*from, env, depth, heap, setting);
            lemma_eval_scoped(*from, env, depth, heap, setting);
            match right.result {
                Ok(value) => {
                    lemma_bind_sound(right.heap, env, to, value);
                    lemma_keeps_twice(
                        heap,
                        right.heap,
                        bind(right.heap, env, to, value),
                        Some(env),
                    );
                },
                Err(_) => {},
            }
        },
        Node::Alias { to, from } => {
            let right = eval(*from, env, depth, heap, setting);
            lemma_eval_scoped(*from, env, depth, heap, setting);
            match right.result {
                Ok(value) => {
                    lemma_bind_sound(right.heap, env, to, value);
                    lemma_keeps_twice(
                        heap,
                        right.heap,
                        bind(right.heap, env, to, value),
                        Some(env),
                    );
                },
                Err(_) => {},
            }
        },
        Node::OperatorCall { operator, lhs, rhs } => {
            let left = eval(*lhs, env, depth, heap, setting);
            lemma_eval_scoped(*lhs, env, depth, heap, setting);
            match left.result {
                Ok(_) => {
                    let right = eval(*rhs, env, depth, left.heap, setting);
                    lemma_eval_extends(*rhs, env, depth, left.heap, setting);
                    lemma_eval_scoped(*rhs, env, depth, left.heap, setting);
                    lemma_keeps_twice(heap, left.heap, right.heap, Some(env));
                },
                Err(_) => {},
            }
        },
        Node::FunctionDeclaration { arguments, body } => {
            let declared = Heap {
                functions: heap.functions.push(Function { arguments: arguments, body: body }),
                ..heap
            };
            lemma_same_closures_sound(heap, declared);
            assert(extends(heap, declared)) by {
                assert(heap.functions =~= declared.functions.subrange(
                    0,
                    heap.functions.len() as int,
                ));
            }
            let id = heap.functions.len();
            lemma_open_scope_sound(declared, env, Origin::Function(id));
            let after = open_scope(declared, env, Origin::Function(id));
            lemma_keeps_twice(heap, declared, after, None);
            lemma_keeps_unless(heap, after, env);
        },
        _ => {
            let after = eval(node, env, depth, heap, setting).heap;
            lemma_same_closures_sound(heap, after);
            lemma_keeps_unless(heap, after, env);
        },
    }
}

proof fn lemma_eval_all_scoped(
    nodes: Seq<Node>,
    from: nat,
    env: nat,
    depth: nat,
    heap: Heap,
    setting: Setting,
)
    requires
        heap_sound(heap),
        env < heap.closures.len(),
    ensures
        scoped(heap, eval_all(nodes, from, env, depth, heap, setting), Some(env)),
        match eval_all(nodes, from, env, depth, heap, setting).result {
            Ok(values) => values_sound(
                values,
                eval_all(nodes, from, env, depth, heap, setting).heap,
            ),
            Err(_) => true,
        },
    decreases budget(setting, depth), nodes, nodes.len() - from,
{
    lemma_eval_all_extends(nodes, from, env, depth, heap, setting);
    if from < nodes.len() {
        let first = eval(nodes[from as int], env, depth, heap, setting);
        lemma_eval_scoped(nodes[from as int], env, depth, heap, setting);
        match first.result {
            Ok(value) => {
                let rest = eval_all(nodes, from + 1, env, depth, first.heap, setting);
                lemma_eval_all_extends(nodes, from + 1, env, depth, first.heap, setting);
                lemma_eval_all_scoped(nodes, from + 1, env, depth, first.heap, setting);
                lemma_keeps_twice(heap, first.heap, rest.heap, Some(env));
                match rest.result {
                    Ok(values) => {
                        lemma_value_stays_sound(value, first.heap, rest.heap);
                        assert forall|i: int| 0 <= i < (seq![value] + values).len() implies value_sound(
                            #[trigger] (seq![value] + values)[i],
                            rest.heap,
                        ) by {
                            if i > 0 {
                                assert((seq![value] + values)[i] == values[i - 1]);
                            }
                        }
                    },
                    Err(_) => {},
                }
            },
            Err(_) => {},
        }
    } else {
        lemma_same_closures_sound(heap, heap);
        lemma_keeps_unless(heap, heap, env);
    }
}

proof fn lemma_run_block_scoped(
    items: Seq<Node>,
    env: nat,
    depth: nat,
    heap: Heap,
    setting: Setting,
)
    requires
        heap_sound(heap),
        env < heap.closures.len(),
    ensures
        scoped(heap, run_block(items, env, depth, heap, setting), None),
        match run_block(items, env, depth, heap, setting).result {
            Ok(value) => value_sound(value, run_block(items, env, depth, heap, setting).heap),
            Err(_) => true,
        },
    decreases budget(setting, depth), items, items.len() + 1,
{
    let opened = open_scope(heap, env, Origin::Block);
    lemma_open_scope_sound(heap, env, Origin::Block);
    if depth <= setting.stack_size {
        let done = eval_all(items, 0, heap.closures.len(), depth + 1, opened, setting);
        lemma_eval_all_extends(items, 0, heap.closures.len(), depth + 1, opened, setting);
        lemma_eval_all_scoped(items, 0, heap.closures.len(), depth + 1, opened, setting);
        lemma_extends_twice(heap, opened, done.heap);
        assert forall|i: int, name: Seq<char>|
            0 <= i < heap.closures.len() && i < done.heap.closures.len() && !takes_argument(
                heap,
                i,
                name,
            ) implies #[trigger] same_at(
            heap.closures[i].variables,
            done.heap.closures[i].variables,
            name,
        ) by {
            assert(opened.closures[i] == heap.closures[i]);
            assert(!takes_argument(opened, i, name));
            assert(same_at(opened.closures[i].variables, done.heap.closures[i].variables, name));
        }
    }
}

proof fn lemma_dispatch_scoped(
    name: Seq<char>,
    body: Option<Seq<Node>>,
    values: Seq<Value>,
    env: nat,
    depth: nat,
    heap: Heap,
    setting: Setting,
)
    requires
        heap_sound(heap),
        values_sound(values, heap),
        env < heap.closures.len(),
    ensures
        scoped(heap, dispatch(name, body, values, env, depth, heap, setting), None),
        match dispatch(name, body, values, env, depth, heap, setting).result {
            Ok(value) => value_sound(
                value,
                dispatch(name, body, values, env, depth, heap, setting).heap,
            ),
            Err(_) => true,
        },
    decreases budget(setting, depth), body, 0nat,
{
    lemma_dispatch_extends(name, body, values, env, depth, heap, setting);
    lemma_same_closures_sound(heap, heap);
    if name == "while"@ {
    } else if name == "if"@ {
        if values.len() == 1 {
            match body {
                Some(items) => {
                    lemma_run_block_scoped(items, env, depth, heap, setting);
                },
                None => {},
            }
        }
    } else if name == "print"@ {
        let after = Heap { printed: heap.printed + values, ..heap };
        lemma_same_closures_sound(heap, after);
    } else {
        lemma_resolve_sound(heap, env, name);
        match resolve(heap.closures, env, name) {
            Some(Value::Function { id, closure_id }) => {
                match enter(id, closure_id, values, depth, heap, setting) {
                    Ok(entered) => {
                        lemma_bind_all_sound(heap, closure_id, id, values, values.len());
                        let done = run_block(
                            heap.functions[id as int].body,
                            closure_id,
                            depth + 1,
                            entered,
                            setting,
                        );
                        lemma_run_block_extends(
                            heap.functions[id as int].body,
                            closure_id,
                            depth + 1,
                            entered,
                            setting,
                        );
                        lemma_run_block_scoped(
                            heap.functions[id as int].body,
                            closure_id,
                            depth + 1,
                            entered,
                            setting,
                        );
                        lemma_keeps_twice(heap, entered, done.heap, None);
                    },
                    Err(_) => {},
                }
            },
            _ => {},
        }
    }
}

/// What a block binds is gone when the block is left. Where every function
/// value that a variable holds names the closure of its function, evaluating
/// a block, with all that it calls, takes no closure away, and in the
/// closures that were there before every name stands afterwards for what it
/// stood for. The one exception is the arguments of a function, which a call
/// of that function binds anew in the closure of the function. So the
/// closures that blocks and the script made hold the variables that they
/// held: an assignment binds in the closure of the block in which it stands.
pub proof fn lemma_block_keeps_outer_variables(
    items: Seq<Node>,
    env: nat,
    depth: nat,
    heap: Heap,
    setting: Setting,
)
    requires
        heap_sound(heap),
        env < heap.closures.len(),
    ensures
        heap_sound(run_block(items, env, depth, heap, setting).heap),
        extends(heap, run_block(items, env, depth, heap, setting).heap),
        keeps_variables(heap, run_block(items, env, depth, heap, setting).heap, None),
        forall|i: int|
            0 <= i < heap.closures.len() && !(heap.closures[i].creator is Function) ==> (
            #[trigger] run_block(items, env, depth, heap, setting).heap.closures[i]).variables
                == heap.closures[i].variables,
{
    lemma_run_block_scoped(items, env, depth, heap, setting);
    let after = run_block(items, env, depth, heap, setting).heap;
    assert forall|i: int|
        0 <= i < heap.closures.len() && !(heap.closures[i].creator is Function) implies (
    #[trigger] after.closures[i]).variables == heap.closures[i].variables by {
        assert forall|name: Seq<char>|
            same_at(heap.closures[i].variables, after.closures[i].variables, name) by {
            assert(!takes_argument(heap, i, name));
        }
        assert forall|name: Seq<char>|
            heap.closures[i].variables.contains_key(name)
                == after.closures[i].variables.contains_key(name) by {
            assert(same_at(heap.closures[i].variables, after.closures[i].variables, name));
        }
        assert forall|name: Seq<char>|
            heap.closures[i].variables.contains_key(name) implies heap.closures[i].variables[name]
            == after.closures[i].variables[name] by {
            assert(same_at(heap.closures[i].variables, after.closures[i].variables, name));
        }
        assert(after.closures[i].variables =~= heap.closures[i].variables);
    }
}

/// A name stands behind a block for what it stood for before it, in the
/// closure in which the block was evaluated: for the same value, or for none.
/// This holds in the body of a function as it does elsewhere. The one
/// exception is a name that is an argument of a function in whose closure the
/// block lies: a call of that function from within the block binds it anew.
pub proof fn lemma_names_as_before_behind_block(
    items: Seq<Node>,
    env: nat,
    depth: nat,
    heap: Heap,
    setting: Setting,
    name: Seq<char>,
)
    requires
        heap_sound(heap),
        env < heap.closures.len(),
        !is_argument_around(heap, env, name),
    ensures
        resolve(run_block(items, env, depth, heap, setting).heap.closures, env, name) == resolve(
            heap.closures,
            env,
            name,
        ),
{
    lemma_run_block_scoped(items, env, depth, heap, setting);
    lemma_resolve_kept(heap, run_block(items, env, depth, heap, setting).heap, env, name);
}

proof fn lemma_resolve_kept(before: Heap, after: Heap, id: nat, name: Seq<char>)
    requires
        extends(before, after),
        keeps_variables(before, after, None),
        id < before.closures.len(),
        !is_argument_around(before, id, name),
    ensures
        resolve(after.closures, id, name) == resolve(before.closures, id, name),
    decreases id,
{
    assert(same_at(before.closures[id as int].variables, after.closures[id as int].variables, name));
    assert(after.closures[id as int].parent == before.closures[id as int].parent);
    if !before.closures[id as int].variables.contains_key(name) {
        match before.closures[id as int].parent {
            Some(parent) => {
                if parent < id {
                    lemma_resolve_kept(before, after, parent, name);
                }
            },
            None => {},
        }
    }
}

/// The first statement is a call of the name with the given arguments and
/// without a block behind it, or a block of whose statements the same holds.
pub open spec fn leads_to_call(items: Seq<Node>, name: Seq<char>, args: Seq<Node>) -> bool
    decreases items,
{
    &&& items.len() >= 1
    &&& (items[0] == (Node::FunctionCall { name: name, arguments: args, body: None })
        || match items[0] {
        Node::Block(inner) => leads_to_call(inner, name, args),
        _ => false,
    })
}

/// The name stands in closure `closure_id` for function `id` with that
/// closure, and the function calls itself before anything else: its body
/// leads to a call of the name, maybe within blocks, and the arguments of
/// that call are arguments of the function itself, as many as it declares.
pub open spec fn calls_itself(
    heap: Heap,
    name: Seq<char>,
    id: nat,
    closure_id: nat,
    args: Seq<Node>,
) -> bool {
    &&& !is_built_in(name)
    &&& id < heap.functions.len()
    &&& all_names(heap.functions[id as int].arguments)
    &&& args.len() == heap.functions[id as int].arguments.len()
    &&& forall|k: int|
        0 <= k < args.len() ==> (#[trigger] args[k]) is Variable && is_argument(
            heap.functions,
            id,
            args[k]->Variable_0,
        )
    &&& !is_argument(heap.functions, id, name)
    &&& leads_to_call(heap.functions[id as int].body, name, args)
    &&& closure_id < heap.closures.len()
    &&& resolve(heap.closures, closure_id, name) == Some(
        Value::Function { id: id, closure_id: closure_id },
    )
}

proof fn lemma_resolve_in_more_closures(
    before: Seq<Scope>,
    after: Seq<Scope>,
    id: nat,
    name: Seq<char>,
)
    requires
        id < before.len(),
        before.len() <= after.len(),
        forall|i: int|
            0 <= i <= id ==> (#[trigger] after[i]).parent == before[i].parent && same_at(
                before[i].variables,
                after[i].variables,
                name,
            ),
    ensures
        resolve(after, id, name) == resolve(before, id, name),
    decreases id,
{
    assert(after[id as int].parent == before[id as int].parent);
    assert(same_at(before[id as int].variables, after[id as int].variables, name));
    if !before[id as int].variables.contains_key(name) {
        match before[id as int].parent {
            Some(parent) => {
                if parent < id {
                    lemma_resolve_in_more_closures(before, after, parent, name);
                }
            },
            None => {},
        }
    }
}

/// What binding the first `n` names in closure `id` does: these names are
/// bound there, every other name there is as it was, and so is every other
/// closure.
proof fn lemma_bind_all_binds(
    heap: Heap,
    id: nat,
    names: Seq<Seq<char>>,
    values: Seq<Value>,
    n: nat,
)
    requires
        id < heap.closures.len(),
        n <= names.len(),
    ensures
        ({
            let after = bind_all(heap, id, names, values, n);
            &&& after.functions == heap.functions
            &&& after.closures.len() == heap.closures.len()
            &&& forall|i: int|
                0 <= i < heap.closures.len() ==> (#[trigger] after.closures[i]).parent
                    == heap.closures[i].parent
            &&& forall|i: int|
                0 <= i < heap.closures.len() && i != id ==> #[trigger] after.closures[i]
                    == heap.closures[i]
            &&& forall|k: int|
                0 <= k < n ==> after.closures[id as int].variables.contains_key(#[trigger] names[k])
            &&& forall|x: Seq<char>|
                (forall|k: int| 0 <= k < n ==> #[trigger] names[k] != x) ==> #[trigger] same_at(
                    heap.closures[id as int].variables,
                    after.closures[id as int].variables,
                    x,
                )
        }),
    decreases n,
{
    if n > 0 {
        let before = bind_all(heap, id, names, values, (n - 1) as nat);
        let after = bind(before, id, names[n - 1], values[n - 1]);
        lemma_bind_all_binds(heap, id, names, values, (n - 1) as nat);
        assert forall|k: int| 0 <= k < n implies after.closures[id as int].variables.contains_key(
            #[trigger] names[k],
        ) by {
            if k < n - 1 {
                assert(before.closures[id as int].variables.contains_key(names[k]));
            }
        }
        assert forall|x: Seq<char>|
            (forall|k: int| 0 <= k < n ==> #[trigger] names[k] != x) implies #[trigger] same_at(
            heap.closures[id as int].variables,
            after.closures[id as int].variables,
            x,
        ) by {
            assert(names[n - 1] != x);
            assert(forall|k: int| 0 <= k < n - 1 ==> #[trigger] names[k] != x);
            assert(same_at(
                heap.closures[id as int].variables,
                before.closures[id as int].variables,
                x,
            ));
        }
    }
}

/// Names that all have values give these values and leave the heap as it is.
proof fn lemma_bound_names_give_values(
    args: Seq<Node>,
    from: nat,
    env: nat,
    depth: nat,
    heap: Heap,
    setting: Setting,
)
    requires
        from <= args.len(),
        forall|k: int|
            0 <= k < args.len() ==> (#[trigger] args[k]) is Variable && resolve(
                heap.closures,
                env,
                args[k]->Variable_0,
            ) is Some,
    ensures
        eval_all(args, from, env, depth, heap, setting).heap == heap,
        eval_all(args, from, env, depth, heap, setting).result is Ok,
        eval_all(args, from, env, depth, heap, setting).result->Ok_0.len() == args.len() - from,
    decreases args.len() - from,
{
    if from < args.len() {
        let node = args[from as int];
        assert(node is Variable);
        let name = node->Variable_0;
        assert(node == Node::Variable(name));
        assert(resolve(heap.closures, env, name) is Some);
        assert(eval(node, env, depth, heap, setting) == gives(
            resolve(heap.closures, env, name)->Some_0,
            heap,
        ));
        lemma_bound_names_give_values(args, from + 1, env, depth, heap, setting);
    }
}

/// The facts about a function that calls itself, seen from closure `env`:
/// the name stands there for the function, and every argument of the inner
/// call has a value there.
spec fn in_reach(
    heap: Heap,
    name: Seq<char>,
    id: nat,
    closure_id: nat,
    args: Seq<Node>,
    env: nat,
) -> bool {
    &&& env < heap.closures.len()
    &&& resolve(heap.closures, env, name) == Some(
        Value::Function { id: id, closure_id: closure_id },
    )
    &&& forall|k: int|
        0 <= k < args.len() ==> resolve(heap.closures, env, (#[trigger] args[k])->Variable_0) is Some
}

proof fn lemma_block_overflows(
    items: Seq<Node>,
    name: Seq<char>,
    id: nat,
    closure_id: nat,
    args: Seq<Node>,
    env: nat,
    depth: nat,
    heap: Heap,
    setting: Setting,
)
    requires
        calls_itself(heap, name, id, closure_id, args),
        in_reach(heap, name, id, closure_id, args, env),
        leads_to_call(items, name, args),
    ensures
        run_block(items, env, depth, heap, setting).result == Err::<Value, Stop>(
            Stop::Error("Stack overflow!"@),
        ),
    decreases budget(setting, depth), items,
{
    if depth <= setting.stack_size {
        let opened = open_scope(heap, env, Origin::Block);
        let inner = heap.closures.len();
        assert forall|x: Seq<char>|
            resolve(opened.closures, inner, x) == resolve(heap.closures, env, x) by {
            assert forall|i: int| 0 <= i <= env implies (#[trigger] opened.closures[i]).parent
                == heap.closures[i].parent && same_at(
                heap.closures[i].variables,
                opened.closures[i].variables,
                x,
            ) by {
                assert(opened.closures[i] == heap.closures[i]);
            }
            lemma_resolve_in_more_closures(heap.closures, opened.closures, env, x);
        }
        assert forall|i: int| 0 <= i <= closure_id implies (#[trigger] opened.closures[i]).parent
            == heap.closures[i].parent && same_at(
            heap.closures[i].variables,
            opened.closures[i].variables,
            name,
        ) by {
            assert(opened.closures[i] == heap.closures[i]);
        }
        lemma_resolve_in_more_closures(heap.closures, opened.closures, closure_id, name);
        assert(calls_itself(opened, name, id, closure_id, args));
        assert(in_reach(opened, name, id, closure_id, args, inner));
        let first = eval(items[0], inner, depth + 1, opened, setting);
        if items[0] == (Node::FunctionCall { name: name, arguments: args, body: None }) {
            lemma_bound_names_give_values(args, 0, inner, depth + 1, opened, setting);
            let given = eval_all(args, 0, inner, depth + 1, opened, setting);
            lemma_call_overflows(
                name,
                id,
                closure_id,
                args,
                given.result->Ok_0,
                inner,
                depth + 1,
                opened,
                setting,
            );
        } else {
            match items[0] {
                Node::Block(nested) => {
                    lemma_block_overflows(
                        nested,
                        name,
                        id,
                        closure_id,
                        args,
                        inner,
                        depth + 1,
                        opened,
                        setting,
                    );
                },
                _ => {},
            }
        }
        assert(first.result == Err::<Value, Stop>(Stop::Error("Stack overflow!"@)));
        assert(eval_all(items, 0, inner, depth + 1, opened, setting).result == Err::<
            Seq<Value>,
            Stop,
        >(Stop::Error("Stack overflow!"@)));
    }
}

proof fn lemma_call_overflows(
    name: Seq<char>,
    id: nat,
    closure_id: nat,
    args: Seq<Node>,
    values: Seq<Value>,
    env: nat,
    depth: nat,
    heap: Heap,
    setting: Setting,
)
    requires
        calls_itself(heap, name, id, closure_id, args),
        resolve(heap.closures, env, name) == Some(
            Value::Function { id: id, closure_id: closure_id },
        ),
        values.len() == args.len(),
    ensures
        dispatch(name, None, values, env, depth, heap, setting).result == Err::<Value, Stop>(
            Stop::Error("Stack overflow!"@),
        ),
    decreases budget(setting, depth), heap.functions[id as int].body, 1nat,
{
    if depth <= setting.stack_size {
        let declared = heap.functions[id as int].arguments;
        let names = names_of(declared);
        let entered = bind_all(heap, closure_id, names, values, values.len());
        assert(enter(id, closure_id, values, depth, heap, setting) == Ok::<Heap, Stop>(entered));
        lemma_bind_all_binds(heap, closure_id, names, values, values.len());
        assert forall|k: int| 0 <= k < values.len() implies #[trigger] names[k] != name by {
            assert(declared[k] is Variable);
            assert(declared[k] == Node::Variable(names[k]));
        }
        assert(same_at(
            heap.closures[closure_id as int].variables,
            entered.closures[closure_id as int].variables,
            name,
        ));
        assert forall|i: int| 0 <= i <= closure_id implies (#[trigger] entered.closures[i]).parent
            == heap.closures[i].parent && same_at(
            heap.closures[i].variables,
            entered.closures[i].variables,
            name,
        ) by {
            if i != closure_id {
                assert(entered.closures[i] == heap.closures[i]);
            }
        }
        lemma_resolve_in_more_closures(heap.closures, entered.closures, closure_id, name);
        assert forall|k: int| 0 <= k < args.len() implies resolve(
            entered.closures,
            closure_id,
            (#[trigger] args[k])->Variable_0,
        ) is Some by {
            let p = args[k]->Variable_0;
            assert(is_argument(heap.functions, id, p));
            let j = choose|j: int| 0 <= j < declared.len() && #[trigger] declared[j] == Node::Variable(p);
            assert(names[j] == p);
            assert(entered.closures[closure_id as int].variables.contains_key(names[j]));
        }
        assert(calls_itself(entered, name, id, closure_id, args));
        assert(in_reach(entered, name, id, closure_id, args, closure_id));
        lemma_block_overflows(
            heap.functions[id as int].body,
            name,
            id,
            closure_id,
            args,
            closure_id,
            depth + 1,
            entered,
            setting,
        );
    }
}

/// A function that calls itself before anything else overflows the stack,
/// whatever it declares and however deep in blocks the call stands: a call
/// of it, with as many values as it declares arguments, fails, and the
/// failure is the stack overflow, from whatever frame and with whatever limit
/// the call is made.
pub proof fn lemma_endless_recursion_overflows(
    name: Seq<char>,
    id: nat,
    closure_id: nat,
    args: Seq<Node>,
    values: Seq<Value>,
    env: nat,
    depth: nat,
    heap: Heap,
    setting: Setting,
)
    requires
        calls_itself(heap, name, id, closure_id, args),
        resolve(heap.closures, env, name) == Some(
            Value::Function { id: id, closure_id: closure_id },
        ),
        values.len() == args.len(),
    ensures
        dispatch(name, None, values, env, depth, heap, setting).result == Err::<Value, Stop>(
            Stop::Error("Stack overflow!"@),
        ),
{
    lemma_call_overflows(name, id, closure_id, args, values, env, depth, heap, setting);
}

/// A name that stands for nothing is never passed over in silence: where the
/// first argument of a call is a name without a value in the current closure
/// and around it, the call fails, whatever is called; the failure names the
/// name, and nothing is printed or bound.
pub proof fn lemma_undefined_argument_fails(
    callee: Seq<char>,
    arguments: Seq<Node>,
    body: Option<Seq<Node>>,
    name: Seq<char>,
    env: nat,
    depth: nat,
    heap: Heap,
    setting: Setting,
)
    requires
        arguments.len() >= 1,
        arguments[0] == Node::Variable(name),
        resolve(heap.closures, env, name) is None,
    ensures
        eval(
            Node::FunctionCall { name: callee, arguments: arguments, body: body },
            env,
            depth,
            heap,
            setting,
        ) == fails::<Value>("Unable to find variable "@ + name, heap),
{
    assert(eval(arguments[0], env, depth, heap, setting) == fails::<Value>(
        "Unable to find variable "@ + name,
        heap,
    ));
    assert(eval_all(arguments, 0, env, depth, heap, setting).result is Err);
}

/// The heap from which a script starts is sound, and no name in it is an
/// argument of a function.
pub proof fn lemma_initial_heap_sound()
    ensures
        heap_sound(initial_heap()),
        forall|name: Seq<char>| !is_argument_around(initial_heap(), 0, name),
{
}

} // verus!
