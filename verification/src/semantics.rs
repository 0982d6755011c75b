use vstd::prelude::*;
use crate::interp::{truthy, Query, Value};
use crate::parser::{AstOperator, Node};
use crate::text::decimal;

verus! {

/// What made a closure: the script as a whole, a block that was entered, or
/// the declaration of the function with the given index.
pub enum Origin {
    Script,
    Block,
    Function(nat),
}

/// A closure: what made it, the variables of its scope and the scope around
/// it.
pub struct Scope {
    pub creator: Origin,
    pub variables: Map<Seq<char>, Value>,
    pub parent: Option<nat>,
}

/// A function declaration that was evaluated.
pub struct Function {
    pub arguments: Seq<Node>,
    pub body: Seq<Node>,
}

/// A struct declaration that was evaluated.
pub struct Structure {
    pub fields: Seq<Seq<char>>,
    pub types: Seq<Seq<char>>,
}

/// What the evaluator holds besides its call stack: the closures, the
/// declarations, and the values that were handed to `print`, each table in
/// the order in which it was filled.
pub struct Heap {
    pub closures: Seq<Scope>,
    pub functions: Seq<Function>,
    pub structs: Seq<Structure>,
    pub printed: Seq<Value>,
}

/// Why an evaluation stopped without a value.
pub enum Stop {
    /// The script is at fault; the reason in words.
    Error(Seq<char>),
    /// The answer to a question about numbers is needed and not known.
    Pending(Query),
    /// A function was called with another number of arguments than it
    /// declares.
    ArityMismatch,
}

/// A result with the heap that the evaluation left behind.
pub struct Step<T> {
    pub result: Result<T, Stop>,
    pub heap: Heap,
}

/// What an evaluation is given: the greatest frame index from which a frame
/// may still be pushed, and the known answers about numbers.
pub struct Setting {
    pub stack_size: nat,
    pub numbers: Map<Query, u64>,
}

pub open spec fn fails<T>(desc: Seq<char>, heap: Heap) -> Step<T> {
    Step { result: Err(Stop::Error(desc)), heap: heap }
}

pub open spec fn gives<T>(value: T, heap: Heap) -> Step<T> {
    Step { result: Ok(value), heap: heap }
}

/// How many more frames the stack can take below frame index `depth`.
pub open spec fn budget(setting: Setting, depth: nat) -> nat {
    if depth <= setting.stack_size + 1 {
        (setting.stack_size + 2 - depth) as nat
    } else {
        0
    }
}

/// The value of a name in a closure or, where the closure has none, in the
/// nearest closure around it that has one.
pub open spec fn resolve(closures: Seq<Scope>, id: nat, name: Seq<char>) -> Option<Value>
    decreases id,
{
    if id >= closures.len() {
        None
    } else if closures[id as int].variables.contains_key(name) {
        Some(closures[id as int].variables[name])
    } else {
        match closures[id as int].parent {
            Some(parent) => if parent < id {
                resolve(closures, parent, name)
            } else {
                None
            },
            None => None,
        }
    }
}

/// The heap in which closure `id` has the name bound to the value; no other
/// closure changes.
pub open spec fn bind(heap: Heap, id: nat, name: Seq<char>, value: Value) -> Heap {
    if id < heap.closures.len() {
        Heap {
            closures: heap.closures.update(
                id as int,
                Scope {
                    variables: heap.closures[id as int].variables.insert(name, value),
                    ..heap.closures[id as int]
                },
            ),
            ..heap
        }
    } else {
        heap
    }
}

/// The heap in which closure `id` has the first `n` names bound to the first
/// `n` values, one after the other.
pub open spec fn bind_all(
    heap: Heap,
    id: nat,
    names: Seq<Seq<char>>,
    values: Seq<Value>,
    n: nat,
) -> Heap
    decreases n,
{
    if n == 0 {
        heap
    } else {
        bind(
            bind_all(heap, id, names, values, (n - 1) as nat),
            id,
            names[n - 1],
            values[n - 1],
        )
    }
}

/// The heap with one more closure, which is empty and lies in `parent`. Its
/// id is the number of closures before.
pub open spec fn open_scope(heap: Heap, parent: nat, creator: Origin) -> Heap {
    Heap {
        closures: heap.closures.push(
            Scope { creator: creator, variables: Map::empty(), parent: Some(parent) },
        ),
        ..heap
    }
}

/// The name of the kind of a value.
pub open spec fn kind_name(value: Value) -> Seq<char> {
    match value {
        Value::Void => "InterpVoid"@,
        Value::Number(_) => "InterpNumber"@,
        Value::Boolean(_) => "InterpBoolean"@,
        Value::String(_) => "InterpString"@,
        Value::Struct(_) => "InterpStruct"@,
        Value::Function { .. } => "InterpFunction"@,
    }
}

/// An operator applied to two values: for two numbers, the known answer or
/// the question; for any other pair, a failure that names both kinds.
pub open spec fn apply(operator: AstOperator, lhs: Value, rhs: Value, numbers: Map<Query, u64>)
    -> Result<Value, Stop> {
    match (lhs, rhs) {
        (Value::Number(a), Value::Number(b)) => {
            let query = Query::Operation { operator: operator, lhs: a, rhs: b };
            if numbers.contains_key(query) {
                Ok(Value::Number(numbers[query]))
            } else {
                Err(Stop::Pending(query))
            }
        },
        _ => Err(
            Stop::Error(
                "Operator not yet implemented. lhs: "@ + kind_name(lhs) + ", rhs: "@ + kind_name(
                    rhs,
                ),
            ),
        ),
    }
}

/// The number that a literal denotes: the known answer or the question.
pub open spec fn literal(text: Seq<char>, numbers: Map<Query, u64>) -> Result<Value, Stop> {
    if numbers.contains_key(Query::Literal(text)) {
        Ok(Value::Number(numbers[Query::Literal(text)]))
    } else {
        Err(Stop::Pending(Query::Literal(text)))
    }
}

/// Whether every declared argument is a bare name.
pub open spec fn all_names(arguments: Seq<Node>) -> bool {
    forall|i: int| 0 <= i < arguments.len() ==> #[trigger] arguments[i] is Variable
}

/// The names of declared arguments.
pub open spec fn names_of(arguments: Seq<Node>) -> Seq<Seq<char>> {
    Seq::new(
        arguments.len(),
        |i: int|
            match arguments[i] {
                Node::Variable(name) => name,
                _ => Seq::empty(),
            },
    )
}

/// The value of a block: that of its last statement, or void where it has
/// none.
pub open spec fn last_value(values: Seq<Value>) -> Value {
    if values.len() == 0 {
        Value::Void
    } else {
        values.last()
    }
}

/// The value of a node. `env` is the closure of the current frame and
/// `depth` the index of that frame.
pub open spec fn eval(node: Node, env: nat, depth: nat, heap: Heap, setting: Setting) -> Step<
    Value,
>
    decreases budget(setting, depth), node, 1nat,
{
    match node {
        Node::Block(items) => run_block(items, env, depth, heap, setting),
        Node::FunctionCall { name, arguments, body } => {
            let given = eval_all(arguments, 0, env, depth, heap, setting);
            match given.result {
                Ok(values) => dispatch(name, body, values, env, depth, given.heap, setting),
                Err(stop) => Step { result: Err(stop), heap: given.heap },
            }
        },
        Node::StringValue(text) => gives(Value::String(text), heap),
        Node::NumberValue(text) => Step { result: literal(text, setting.numbers), heap: heap },
        Node::Variable(name) => match resolve(heap.closures, env, name) {
            Some(value) => gives(value, heap),
            None => fails("Unable to find variable "@ + name, heap),
        },
        Node::Assignment { to, from } => {
            let right = eval(*from, env, depth, heap, setting);
            match right.result {
                Ok(value) => gives(Value::Void, bind(right.heap, env, to, value)),
                Err(stop) => Step { result: Err(stop), heap: right.heap },
            }
        },
        Node::Alias { to, from } => {
            let right = eval(*from, env, depth, heap, setting);
            match right.result {
                Ok(value) => gives(Value::Void, bind(right.heap, env, to, value)),
                Err(stop) => Step { result: Err(stop), heap: right.heap },
            }
        },
        Node::OperatorCall { operator, lhs, rhs } => {
            let left = eval(*lhs, env, depth, heap, setting);
            match left.result {
                Ok(a) => {
                    let right = eval(*rhs, env, depth, left.heap, setting);
                    match right.result {
                        Ok(b) => Step {
                            result: apply(operator, a, b, setting.numbers),
                            heap: right.heap,
                        },
                        Err(stop) => Step { result: Err(stop), heap: right.heap },
                    }
                },
                Err(stop) => Step { result: Err(stop), heap: left.heap },
            }
        },
        Node::StructDeclaration { fields, types } => gives(
            Value::Struct(heap.structs.len()),
            Heap {
                structs: heap.structs.push(Structure { fields: fields, types: types }),
                ..heap
            },
        ),
        Node::FunctionDeclaration { arguments, body } => gives(
            Value::Function { id: heap.functions.len(), closure_id: heap.closures.len() },
            open_scope(
                Heap {
                    functions: heap.functions.push(Function { arguments: arguments, body: body }),
                    ..heap
                },
                env,
                Origin::Function(heap.functions.len()),
            ),
        ),
        Node::NullValue => gives(Value::Void, heap),
    }
}

/// The values of the nodes from place `from` on, each evaluated in the heap
/// that the one before it left.
pub open spec fn eval_all(
    nodes: Seq<Node>,
    from: nat,
    env: nat,
    depth: nat,
    heap: Heap,
    setting: Setting,
) -> Step<Seq<Value>>
    decreases budget(setting, depth), nodes, nodes.len() - from,
{
    if from >= nodes.len() {
        gives(Seq::empty(), heap)
    } else {
        let first = eval(nodes[from as int], env, depth, heap, setting);
        match first.result {
            Ok(value) => {
                let rest = eval_all(nodes, from + 1, env, depth, first.heap, setting);
                match rest.result {
                    Ok(values) => gives(seq![value] + values, rest.heap),
                    Err(stop) => Step { result: Err(stop), heap: rest.heap },
                }
            },
            Err(stop) => Step { result: Err(stop), heap: first.heap },
        }
    }
}

/// The value of a block: a new closure in the current one and a new frame
/// for it, then the statements in their order.
pub open spec fn run_block(items: Seq<Node>, env: nat, depth: nat, heap: Heap, setting: Setting)
    -> Step<Value>
    decreases budget(setting, depth), items, items.len() + 1,
{
    let opened = open_scope(heap, env, Origin::Block);
    if depth > setting.stack_size {
        fails("Stack overflow!"@, opened)
    } else {
        let done = eval_all(items, 0, heap.closures.len(), depth + 1, opened, setting);
        match done.result {
            Ok(values) => gives(last_value(values), done.heap),
            Err(stop) => Step { result: Err(stop), heap: done.heap },
        }
    }
}

/// The value of a call of `name` whose arguments have the given values;
/// `body` is the block that stands behind the call, if one does. `while`
/// does nothing. `if` takes one value and evaluates its block where the value
/// counts as true. `print` hands the values on. Every other name must stand
/// for a function, which is then called.
pub open spec fn dispatch(
    name: Seq<char>,
    body: Option<Seq<Node>>,
    values: Seq<Value>,
    env: nat,
    depth: nat,
    heap: Heap,
    setting: Setting,
) -> Step<Value>
    decreases budget(setting, depth), body, 0nat,
{
    if name == "while"@ {
        gives(Value::Void, heap)
    } else if name == "if"@ {
        if values.len() != 1 {
            fails("if statements can only have one parameter"@, heap)
        } else {
            match body {
                Some(items) => if truthy(values[0]) {
                    run_block(items, env, depth, heap, setting)
                } else {
                    gives(Value::Void, heap)
                },
                None => fails("If statement must have a body"@, heap),
            }
        }
    } else if name == "print"@ {
        gives(Value::Void, Heap { printed: heap.printed + values, ..heap })
    } else {
        match resolve(heap.closures, env, name) {
            Some(Value::Function { id, closure_id }) => match enter(
                id,
                closure_id,
                values,
                depth,
                heap,
                setting,
            ) {
                Ok(entered) => run_block(
                    heap.functions[id as int].body,
                    closure_id,
                    depth + 1,
                    entered,
                    setting,
                ),
                Err(stop) => Step { result: Err(stop), heap: heap },
            },
            _ => fails("Unable to find function "@ + name, heap),
        }
    }
}

/// What a call of function `id` with its closure `closure_id` starts from:
/// a new frame on the function's closure, and the declared names bound there
/// to the values. The body is then evaluated as a block in that frame.
pub open spec fn enter(
    id: nat,
    closure_id: nat,
    values: Seq<Value>,
    depth: nat,
    heap: Heap,
    setting: Setting,
) -> Result<Heap, Stop> {
    if id >= heap.functions.len() {
        Err(Stop::Error("The function with id "@ + decimal(id) + " no longer exists"@))
    } else if !all_names(heap.functions[id as int].arguments) {
        Err(Stop::Error("Invalid argument expression"@))
    } else if heap.functions[id as int].arguments.len() != values.len() {
        Err(Stop::ArityMismatch)
    } else if closure_id >= heap.closures.len() {
        Err(Stop::Error("The closure with id "@ + decimal(closure_id) + " no longer exists"@))
    } else if depth > setting.stack_size {
        Err(Stop::Error("Stack overflow!"@))
    } else {
        Ok(
            bind_all(
                heap,
                closure_id,
                names_of(heap.functions[id as int].arguments),
                values,
                values.len(),
            ),
        )
    }
}

/// The heap before anything was evaluated: one closure, which is empty and
/// lies in no other.
pub open spec fn initial_heap() -> Heap {
    Heap {
        closures: seq![Scope { creator: Origin::Script, variables: Map::empty(), parent: None }],
        functions: Seq::empty(),
        structs: Seq::empty(),
        printed: Seq::empty(),
    }
}

/// The stack depth that `interp` allows.
pub const STACK_SIZE: usize = 10;

/// What a script gives: the value of its tree in the outermost closure and
/// frame, with the values that were printed on the way.
pub open spec fn evaluate(tree: Node, numbers: Map<Query, u64>) -> Step<Value> {
    eval(tree, 0, 0, initial_heap(), Setting { stack_size: STACK_SIZE as nat, numbers: numbers })
}

} // verus!
