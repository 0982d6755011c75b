use vstd::hash_map::StringHashMap;
use vstd::prelude::*;
use crate::parser::{
    node_views, texts, Ast, AstBlock, AstFunctionCall, AstFunctionDeclaration, AstNodeType,
    AstOperator, AstStructDeclaration, Node,
};
use crate::semantics::{
    bind, bind_all, budget, dispatch, enter, eval, eval_all, evaluate, initial_heap, names_of,
    open_scope, resolve, run_block, Function, Heap, Origin, Scope, Setting, Step, Stop,
    Structure, STACK_SIZE,
};
use crate::operators::apply_operation;
use crate::text::{decimal, decimal_text, is_word, joined};
use vstd::string::StringExecFns;

verus! {

/// What went wrong in the evaluator, in words.
#[derive(Debug)]
pub struct InterpError {
    desc: String,
}

impl View for InterpError {
    type V = Seq<char>;

    closed spec fn view(&self) -> Seq<char> {
        self.desc@
    }
}

impl InterpError {
    pub fn new(desc: String) -> (res: InterpError)
        ensures
            res@ == desc@,
    {
        InterpError { desc: desc }
    }

    /// The reason, in words.
    pub fn get_description(&self) -> (res: &str)
        ensures
            res@ == self@,
    {
        self.desc.as_str()
    }
}

/// A value at run time. A number is held as the 64 bits of a
/// double-precision float; a struct or a function is held as its place in
/// the table of declarations.
#[derive(Debug)]
pub enum InterpValue {
    InterpVoid,
    InterpNumber(u64),
    InterpBoolean(bool),
    InterpString(String),
    InterpStruct(usize),
    InterpFunction { id: usize, closure_id: usize },
}

/// A run-time value as a mathematical value.
pub enum Value {
    Void,
    Number(u64),
    Boolean(bool),
    String(Seq<char>),
    Struct(nat),
    Function { id: nat, closure_id: nat },
}

impl View for InterpValue {
    type V = Value;

    open spec fn view(&self) -> Value {
        match self {
            InterpValue::InterpVoid => Value::Void,
            InterpValue::InterpNumber(bits) => Value::Number(*bits),
            InterpValue::InterpBoolean(b) => Value::Boolean(*b),
            InterpValue::InterpString(s) => Value::String(s@),
            InterpValue::InterpStruct(index) => Value::Struct(*index as nat),
            InterpValue::InterpFunction { id, closure_id } => Value::Function {
                id: *id as nat,
                closure_id: *closure_id as nat,
            },
        }
    }
}

impl Clone for InterpValue {
    fn clone(&self) -> (res: Self)
        ensures
            res == *self,
    {
        match self {
            InterpValue::InterpVoid => InterpValue::InterpVoid,
            InterpValue::InterpNumber(bits) => InterpValue::InterpNumber(*bits),
            InterpValue::InterpBoolean(b) => InterpValue::InterpBoolean(*b),
            InterpValue::InterpString(s) => InterpValue::InterpString(s.clone()),
            InterpValue::InterpStruct(index) => InterpValue::InterpStruct(*index),
            InterpValue::InterpFunction { id, closure_id } => InterpValue::InterpFunction {
                id: *id,
                closure_id: *closure_id,
            },
        }
    }
}

/// The bits of the double-precision float -0.0; those of 0.0 are 0.
pub const NEGATIVE_ZERO: u64 = 0x8000_0000_0000_0000;

/// A value counts as true where it is a number that is not zero: its bits
/// are neither those of 0.0 nor those of -0.0. Every other value counts as
/// false.
pub open spec fn truthy(value: Value) -> bool {
    match value {
        Value::Number(bits) => bits != 0 && bits != NEGATIVE_ZERO,
        _ => false,
    }
}

/// The values of a list, each as a mathematical value.
pub open spec fn value_views(values: Seq<InterpValue>) -> Seq<Value> {
    values.map_values(|v: InterpValue| v@)
}

impl InterpValue {
    pub fn evals_to_true(&self) -> (res: bool)
        ensures
            res == truthy(self@),
    {
        match self {
            InterpValue::InterpNumber(bits) => *bits != 0 && *bits != NEGATIVE_ZERO,
            _ => false,
        }
    }
}

/// A question about numbers that the evaluator cannot answer by itself:
/// which number a literal denotes, or what an operator gives for two numbers.
#[derive(Debug)]
pub enum NumberQuery {
    Literal(String),
    Operation { operator: AstOperator, lhs: u64, rhs: u64 },
}

pub enum Query {
    Literal(Seq<char>),
    Operation { operator: AstOperator, lhs: u64, rhs: u64 },
}

impl View for NumberQuery {
    type V = Query;

    open spec fn view(&self) -> Query {
        match self {
            NumberQuery::Literal(text) => Query::Literal(text@),
            NumberQuery::Operation { operator, lhs, rhs } => Query::Operation {
                operator: *operator,
                lhs: *lhs,
                rhs: *rhs,
            },
        }
    }
}

impl Clone for NumberQuery {
    fn clone(&self) -> (res: Self)
        ensures
            res == *self,
    {
        match self {
            NumberQuery::Literal(text) => NumberQuery::Literal(text.clone()),
            NumberQuery::Operation { operator, lhs, rhs } => NumberQuery::Operation {
                operator: *operator,
                lhs: *lhs,
                rhs: *rhs,
            },
        }
    }
}

impl NumberQuery {
    /// Whether two questions are the same question.
    pub fn same(&self, other: &NumberQuery) -> (res: bool)
        ensures
            res == (self@ == other@),
    {
        match (self, other) {
            (NumberQuery::Literal(a), NumberQuery::Literal(b)) => *a == *b,
            (
                NumberQuery::Operation { operator: o1, lhs: l1, rhs: r1 },
                NumberQuery::Operation { operator: o2, lhs: l2, rhs: r2 },
            ) => *o1 == *o2 && *l1 == *l2 && *r1 == *r2,
            _ => false,
        }
    }
}

/// A question about numbers with its answer.
#[derive(Debug)]
pub struct NumberFact {
    pub query: NumberQuery,
    pub value: u64,
}

/// The answers about numbers that the evaluator has been given. The
/// evaluator works on the bits of numbers and leaves floating-point
/// arithmetic to its caller, who supplies each answer that a script needs.
#[derive(Debug)]
pub struct Arithmetic {
    facts: Vec<NumberFact>,
}

/// The answers of a list of facts, where a later answer to a question
/// replaces an earlier one.
pub open spec fn answer_map(facts: Seq<NumberFact>) -> Map<Query, u64>
    decreases facts.len(),
{
    if facts.len() == 0 {
        Map::empty()
    } else {
        answer_map(facts.drop_last()).insert(facts.last().query@, facts.last().value)
    }
}

impl View for Arithmetic {
    type V = Map<Query, u64>;

    closed spec fn view(&self) -> Map<Query, u64> {
        answer_map(self.facts@)
    }
}

impl Arithmetic {
    /// No answers.
    pub fn new() -> (res: Arithmetic)
        ensures
            res@ == Map::<Query, u64>::empty(),
    {
        Arithmetic { facts: Vec::new() }
    }

    /// Adds the answer to a question; it replaces an earlier answer to the
    /// same question.
    pub fn learn(&mut self, query: NumberQuery, value: u64)
        ensures
            final(self)@ == old(self)@.insert(query@, value),
    {
        let ghost before = self.facts@;
        self.facts.push(NumberFact { query: query, value: value });
        assert(self.facts@.drop_last() =~= before);
    }

    /// The answer to a question, where it is known.
    pub fn lookup(&self, query: &NumberQuery) -> (res: Option<u64>)
        ensures
            res == (if self@.contains_key(query@) {
                Some(self@[query@])
            } else {
                None::<u64>
            }),
    {
        let mut i: usize = self.facts.len();
        assert(self.facts@.take(i as int) =~= self.facts@);
        while i > 0
            invariant
                0 <= i <= self.facts@.len(),
                self@.contains_key(query@) == answer_map(self.facts@.take(i as int)).contains_key(
                    query@,
                ),
                self@.contains_key(query@) ==> self@[query@] == answer_map(
                    self.facts@.take(i as int),
                )[query@],
            decreases i,
        {
            proof {
                assert(self.facts@.take(i as int).drop_last() =~= self.facts@.take(i - 1));
            }
            i -= 1;
            if self.facts[i].query.same(query) {
                return Some(self.facts[i].value);
            }
        }
        None
    }
}

/// Why an evaluation stopped without a value.
#[derive(Debug)]
pub enum Halt {
    /// The script is at fault.
    Error(InterpError),
    /// The answer to a question about numbers is needed and not known.
    Pending(NumberQuery),
    /// A function was called with another number of arguments than it
    /// declares.
    ArityMismatch,
}

impl View for Halt {
    type V = Stop;

    open spec fn view(&self) -> Stop {
        match self {
            Halt::Error(e) => Stop::Error(e@),
            Halt::Pending(query) => Stop::Pending(query@),
            Halt::ArityMismatch => Stop::ArityMismatch,
        }
    }
}

/// A result as a mathematical value.
pub open spec fn result_view(res: Result<InterpValue, Halt>) -> Result<Value, Stop> {
    match res {
        Ok(value) => Ok(value@),
        Err(halt) => Err(halt@),
    }
}

/// The failure with the given reason.
pub fn failed<T>(desc: &str) -> (res: Result<T, Halt>)
    ensures
        res is Err,
        res->Err_0@ == Stop::Error(desc@),
{
    Err(Halt::Error(InterpError::new(desc.to_owned())))
}

/// What made a closure or a frame: the script as a whole, a block that was
/// entered, or the function with the given index in the table of functions.
#[derive(Debug, Copy, Clone, PartialEq, Eq, Structural)]
pub enum Creator {
    Script,
    Block,
    Function(usize),
}

impl View for Creator {
    type V = Origin;

    open spec fn view(&self) -> Origin {
        match self {
            Creator::Script => Origin::Script,
            Creator::Block => Origin::Block,
            Creator::Function(id) => Origin::Function(*id as nat),
        }
    }
}

/// One scope: what made it, the variables bound in it, and the scope around
/// it.
struct Closure {
    creator: Creator,
    variables: StringHashMap<InterpValue>,
    parent_id: Option<usize>,
}

/// The variables of a map, each value as a mathematical value.
spec fn variables_of(variables: Map<Seq<char>, InterpValue>) -> Map<Seq<char>, Value> {
    variables.map_values(|v: InterpValue| v@)
}

impl View for Closure {
    type V = Scope;

    closed spec fn view(&self) -> Scope {
        Scope {
            creator: self.creator@,
            variables: variables_of(self.variables@),
            parent: match self.parent_id {
                Some(id) => Some(id as nat),
                None => None,
            },
        }
    }
}

impl Closure {
    fn new(creator: Creator, parent_closure: Option<usize>) -> (res: Closure)
        ensures
            res@ == (Scope {
                creator: creator@,
                variables: Map::empty(),
                parent: match parent_closure {
                    Some(id) => Some(id as nat),
                    None => None,
                },
            }),
            res.parent_id == parent_closure,
    {
        let closure = Closure {
            creator: creator,
            variables: StringHashMap::new(),
            parent_id: parent_closure,
        };
        assert(closure@.variables =~= Map::<Seq<char>, Value>::empty());
        closure
    }

    /// Binds a name to a value; an earlier binding of the name no longer
    /// counts.
    fn set_variable(&mut self, name: String, value: InterpValue)
        ensures
            final(self)@ == (Scope {
                variables: old(self)@.variables.insert(name@, value@),
                ..old(self)@
            }),
            final(self).parent_id == old(self).parent_id,
    {
        self.variables.insert(name, value);
        assert(self@.variables =~= old(self)@.variables.insert(name@, value@));
    }

    /// The value of a name in this scope.
    fn get_variable(&self, name: &String) -> (res: Option<InterpValue>)
        ensures
            self@.variables.contains_key(name@) ==> res is Some && res->Some_0@
                == self@.variables[name@],
            !self@.variables.contains_key(name@) ==> res is None,
    {
        match self.variables.get(name.as_str()) {
            Some(value) => Some(value.clone()),
            None => None,
        }
    }
}

/// One activation on the call stack: its place in the stack, what made it
/// and its closure.
struct StackFrame {
    index: usize,
    creator: Creator,
    closure_id: usize,
}

impl StackFrame {
    fn new(index: usize, creator: Creator, closure: usize) -> (res: StackFrame)
        ensures
            res.index == index,
            res.creator == creator,
            res.closure_id == closure,
    {
        StackFrame { index: index, creator: creator, closure_id: closure }
    }
}

/// The state of one evaluation.
struct Interp<'a> {
    stack_size: usize,
    structs: Vec<&'a AstStructDeclaration>,
    functions: Vec<&'a AstFunctionDeclaration>,
    closures: Vec<Closure>,
    frames: Vec<StackFrame>,
    printed: Vec<InterpValue>,
    arithmetic: &'a Arithmetic,
}

/// The block that stands behind a call, if one does.
spec fn body_view(call: &AstFunctionCall) -> Option<Seq<Node>> {
    match call.body {
        Some(block) => Some(node_views(block.statements@)),
        None => None,
    }
}

spec fn function_view(function: &AstFunctionDeclaration) -> Function {
    Function {
        arguments: node_views(function.arguments@),
        body: node_views(function.body.statements@),
    }
}

spec fn structure_view(structure: &AstStructDeclaration) -> Structure {
    Structure { fields: texts(structure.fields@), types: texts(structure.types@) }
}

impl<'a> Interp<'a> {
    spec fn heap(&self) -> Heap {
        Heap {
            closures: self.closures@.map_values(|c: Closure| c@),
            functions: self.functions@.map_values(|f: &AstFunctionDeclaration| function_view(f)),
            structs: self.structs@.map_values(|s: &AstStructDeclaration| structure_view(s)),
            printed: value_views(self.printed@),
        }
    }

    spec fn setting(&self) -> Setting {
        Setting { stack_size: self.stack_size as nat, numbers: self.arithmetic@ }
    }

    /// The frames are numbered as they lie, each closure lies in an earlier
    /// one, and each frame has a closure.
    spec fn wf(&self) -> bool {
        &&& self.frames@.len() >= 1
        &&& forall|k: int|
            0 <= k < self.frames@.len() ==> (#[trigger] self.frames@[k]).index == k
                && self.frames@[k].closure_id < self.closures@.len()
        &&& forall|i: int|
            0 <= i < self.closures@.len() ==> match (#[trigger] self.closures@[i]).parent_id {
                Some(parent) => parent < i,
                None => true,
            }
    }

    /// The closure of the current frame.
    spec fn env(&self) -> nat {
        self.frames@.last().closure_id as nat
    }

    /// The index of the current frame.
    spec fn depth(&self) -> nat {
        (self.frames@.len() - 1) as nat
    }

    /// The same call stack, limit and numbers.
    spec fn same_stack(&self, before: &Interp<'a>) -> bool {
        &&& self.frames@ == before.frames@
        &&& self.stack_size == before.stack_size
        &&& self.arithmetic == before.arithmetic
    }

    /// Nothing but the closures has changed.
    spec fn same_tables(&self, before: &Interp<'a>) -> bool {
        &&& self.same_stack(before)
        &&& self.functions == before.functions
        &&& self.structs == before.structs
        &&& self.printed == before.printed
    }

    /// The closure with the given id, where there is one.
    fn get_closure_by_id(&self, id: usize) -> (res: Result<&Closure, Halt>)
        ensures
            id < self.closures@.len() ==> res is Ok && *res->Ok_0 == self.closures@[id as int],
            id >= self.closures@.len() ==> res is Err && res->Err_0@ == Stop::Error(
                "The closure with id "@ + decimal(id as nat) + " no longer exists"@,
            ),
    {
        if id < self.closures.len() {
            Ok(&self.closures[id])
        } else {
            let mut msg = joined("The closure with id ", decimal_text(id).as_str());
            msg.append(" no longer exists");
            Err(Halt::Error(InterpError::new(msg)))
        }
    }

    /// The id of the closure of the current frame.
    fn get_current_closure_id(&self) -> (res: usize)
        requires
            self.wf(),
        ensures
            res == self.env(),
            res < self.closures@.len(),
    {
        self.frames[self.frames.len() - 1].closure_id
    }

    /// The value of a name in a closure or in the nearest closure around it.
    fn get_variable_of_closure(&self, name: &String, id: usize) -> (res: Option<InterpValue>)
        requires
            self.wf(),
            id < self.closures@.len(),
        ensures
            match resolve(self.heap().closures, id as nat, name@) {
                Some(value) => res is Some && res->Some_0@ == value,
                None => res is None,
            },
        decreases id,
    {
        let closure = &self.closures[id];
        assert(self.heap().closures[id as int] == closure@);
        match closure.get_variable(name) {
            Some(value) => Some(value),
            None => match closure.parent_id {
                Some(parent_id) => self.get_variable_of_closure(name, parent_id),
                None => None,
            },
        }
    }

    /// The value of a name in the current closure or around it.
    fn get_variable(&self, name: &String) -> (res: Result<InterpValue, Halt>)
        requires
            self.wf(),
        ensures
            match resolve(self.heap().closures, self.env(), name@) {
                Some(value) => res is Ok && res->Ok_0@ == value,
                None => res is Err && res->Err_0@ == Stop::Error(
                    "Unable to find variable "@ + name@,
                ),
            },
    {
        let id = self.get_current_closure_id();
        match self.get_variable_of_closure(name, id) {
            Some(value) => Ok(value),
            None => {
                let msg = joined("Unable to find variable ", name.as_str());
                Err(Halt::Error(InterpError::new(msg)))
            },
        }
    }

    /// Binds a name in closure `id`.
    fn set_variable_of_closure(&mut self, id: usize, name: String, value: InterpValue)
        requires
            old(self).wf(),
            id < old(self).closures@.len(),
        ensures
            final(self).wf(),
            final(self).same_tables(old(self)),
            final(self).heap() == bind(old(self).heap(), id as nat, name@, value@),
    {
        let ghost before = self.closures@;
        let mut closure = Closure::new(Creator::Script, None);
        std::mem::swap(&mut closure, &mut self.closures[id]);
        closure.set_variable(name, value);
        std::mem::swap(&mut closure, &mut self.closures[id]);
        assert(self.heap().closures =~= bind(old(self).heap(), id as nat, name@, value@).closures);
    }

    /// Binds a name in the current closure.
    fn set_variable(&mut self, name: String, value: InterpValue)
        requires
            old(self).wf(),
        ensures
            final(self).wf(),
            final(self).same_tables(old(self)),
            final(self).heap() == bind(old(self).heap(), old(self).env(), name@, value@),
    {
        let id = self.get_current_closure_id();
        self.set_variable_of_closure(id, name, value);
    }

    /// Puts a new frame with the given closure on the stack, unless the
    /// stack is full.
    fn push_frame(&mut self, creator: Creator, closure_id: usize) -> (res: Result<(), Halt>)
        requires
            old(self).wf(),
            closure_id < old(self).closures@.len(),
        ensures
            final(self).wf(),
            final(self).heap() == old(self).heap(),
            final(self).stack_size == old(self).stack_size,
            final(self).arithmetic == old(self).arithmetic,
            old(self).depth() > old(self).stack_size ==> res is Err && res->Err_0@ == Stop::Error(
                "Stack overflow!"@,
            ) && final(self).frames@ == old(self).frames@,
            old(self).depth() <= old(self).stack_size ==> res is Ok && final(self).frames@.len()
                == old(self).frames@.len() + 1 && final(self).frames@.drop_last() == old(
                self,
            ).frames@ && final(self).env() == closure_id,
    {
        let index: usize = self.frames.len() - 1;
        if index > self.stack_size {
            return failed("Stack overflow!");
        }
        let ghost before = self.frames@;
        let new_frame = StackFrame::new(index + 1, creator, closure_id);
        self.frames.push(new_frame);
        assert(self.frames@.drop_last() =~= before);
        Ok(())
    }

    /// Takes the current frame off the stack, unless it is the outermost.
    fn pop_frame(&mut self) -> (res: Result<StackFrame, Halt>)
        requires
            old(self).wf(),
        ensures
            final(self).wf(),
            final(self).heap() == old(self).heap(),
            final(self).stack_size == old(self).stack_size,
            final(self).arithmetic == old(self).arithmetic,
            old(self).frames@.len() <= 1 ==> res is Err && res->Err_0@ == Stop::Error(
                "Unable to pop from stack"@,
            ) && final(self).frames@ == old(self).frames@,
            old(self).frames@.len() > 1 ==> res is Ok && res->Ok_0 == old(self).frames@.last()
                && final(self).frames@ == old(self).frames@.drop_last(),
    {
        if self.frames.len() <= 1 {
            return failed("Unable to pop from stack");
        }
        match self.frames.pop() {
            Some(frame) => Ok(frame),
            None => failed("Unable to pop from stack"),
        }
    }

    /// Adds an empty closure that lies in the given one, and gives its id.
    fn add_closure(&mut self, creator: Creator, parent_closure_id: usize) -> (res: usize)
        requires
            old(self).wf(),
            parent_closure_id < old(self).closures@.len(),
        ensures
            final(self).wf(),
            final(self).same_tables(old(self)),
            res == old(self).closures@.len(),
            final(self).closures@.len() == res + 1,
            final(self).heap() == open_scope(old(self).heap(), parent_closure_id as nat, creator@),
    {
        let closure = Closure::new(creator, Some(parent_closure_id));
        let id = self.closures.len();
        self.closures.push(closure);
        assert(self.heap().closures =~= open_scope(
            old(self).heap(),
            parent_closure_id as nat,
            creator@,
        ).closures);
        id
    }

    /// What was evaluated is what the semantics gives.
    spec fn agrees(&self, res: Result<InterpValue, Halt>, step: Step<Value>) -> bool {
        result_view(res) == step.result && self.heap() == step.heap
    }

    /// Evaluates the nodes of a list in their order and gives their values.
    #[verifier::spinoff_prover]
    fn evaluate_all(&mut self, nodes: &'a Vec<AstNodeType>) -> (res: Result<
        Vec<InterpValue>,
        Halt,
    >)
        requires
            old(self).wf(),
        ensures
            final(self).wf(),
            final(self).same_stack(old(self)),
            ({
                let step = eval_all(
                    node_views(nodes@),
                    0,
                    old(self).env(),
                    old(self).depth(),
                    old(self).heap(),
                    old(self).setting(),
                );
                &&& final(self).heap() == step.heap
                &&& match res {
                    Ok(values) => step.result == Ok::<Seq<Value>, Stop>(value_views(values@)),
                    Err(halt) => step.result == Err::<Seq<Value>, Stop>(halt@),
                }
            }),
        decreases budget(old(self).setting(), old(self).depth()), nodes, 0nat,
    {
        let ghost items = node_views(nodes@);
        let ghost env = self.env();
        let ghost depth = self.depth();
        let ghost setting = self.setting();
        let ghost goal = eval_all(items, 0, env, depth, self.heap(), setting);
        let mut values: Vec<InterpValue> = Vec::new();
        let mut i: usize = 0;
        proof {
            lemma_then_nothing(goal);
            assert(value_views(values@) =~= Seq::<Value>::empty());
        }
        while i < nodes.len()
            invariant
                0 <= i <= nodes@.len(),
                items == node_views(nodes@),
                self.wf(),
                self.same_stack(old(self)),
                env == old(self).env(),
                depth == old(self).depth(),
                setting == old(self).setting(),
                goal == eval_all(items, 0, env, depth, old(self).heap(), setting),
                goal == then_all(
                    value_views(values@),
                    eval_all(items, i as nat, env, depth, self.heap(), setting),
                ),
            decreases nodes@.len() - i,
        {
            let ghost before = value_views(values@);
            let ghost heap = self.heap();
            let value = match self.evaluate_next(&nodes[i]) {
                Ok(value) => value,
                Err(halt) => {
                    return Err(halt);
                },
            };
            proof {
                lemma_then_first(
                    before,
                    value@,
                    eval_all(items, (i + 1) as nat, env, depth, self.heap(), setting),
                );
            }
            values.push(value);
            assert(value_views(values@) =~= before.push(value@));
            i += 1;
        }
        proof {
            assert(value_views(values@) + Seq::<Value>::empty() =~= value_views(values@));
        }
        Ok(values)
    }

    /// Evaluates a block in a new closure and a new frame.
    #[verifier::spinoff_prover]
    fn evaluate_block(&mut self, block: &'a AstBlock) -> (res: Result<InterpValue, Halt>)
        requires
            old(self).wf(),
        ensures
            final(self).wf(),
            final(self).same_stack(old(self)),
            final(self).agrees(
                res,
                run_block(
                    block@,
                    old(self).env(),
                    old(self).depth(),
                    old(self).heap(),
                    old(self).setting(),
                ),
            ),
        decreases budget(old(self).setting(), old(self).depth()), block, 0nat,
    {
        let parent_closure_id = self.get_current_closure_id();
        let closure_id = self.add_closure(Creator::Block, parent_closure_id);
        match self.push_frame(Creator::Block, closure_id) {
            Ok(_) => {},
            Err(halt) => {
                return Err(halt);
            },
        }
        let res = match self.evaluate_all(&block.statements) {
            Ok(mut values) => match values.pop() {
                Some(last) => Ok(last),
                None => Ok(InterpValue::InterpVoid),
            },
            Err(halt) => Err(halt),
        };
        match self.pop_frame() {
            Ok(_) => {},
            Err(halt) => {
                return Err(halt);
            },
        }
        assert(self.frames@ =~= old(self).frames@);
        res
    }

    /// Checks a call of function `id` with its closure `closure_id`, puts a
    /// frame on that closure and binds the declared names there to the
    /// values. Gives the body of the function.
    #[verifier::spinoff_prover]
    fn enter_function(&mut self, id: usize, closure_id: usize, args: &Vec<InterpValue>) -> (res:
        Result<&'a AstBlock, Halt>)
        requires
            old(self).wf(),
        ensures
            final(self).wf(),
            final(self).stack_size == old(self).stack_size,
            final(self).arithmetic == old(self).arithmetic,
            match enter(
                id as nat,
                closure_id as nat,
                value_views(args@),
                old(self).depth(),
                old(self).heap(),
                old(self).setting(),
            ) {
                Ok(entered) => {
                    &&& res is Ok
                    &&& res->Ok_0@ == old(self).heap().functions[id as int].body
                    &&& final(self).heap() == entered
                    &&& final(self).frames@.len() == old(self).frames@.len() + 1
                    &&& final(self).frames@.drop_last() == old(self).frames@
                    &&& final(self).env() == closure_id
                    &&& old(self).depth() <= old(self).stack_size
                },
                Err(stop) => {
                    &&& res is Err
                    &&& res->Err_0@ == stop
                    &&& final(self).heap() == old(self).heap()
                    &&& final(self).frames@ == old(self).frames@
                },
            },
    {
        if id >= self.functions.len() {
            let mut msg = joined("The function with id ", decimal_text(id).as_str());
            msg.append(" no longer exists");
            return Err(Halt::Error(InterpError::new(msg)));
        }
        let func: &'a AstFunctionDeclaration = self.functions[id];
        let ghost declared = node_views(func.arguments@);
        assert(self.heap().functions[id as int] == function_view(func));
        let mut argument_names: Vec<String> = Vec::new();
        let mut i: usize = 0;
        while i < func.arguments.len()
            invariant
                0 <= i <= func.arguments@.len(),
                declared == node_views(func.arguments@),
                *self == *old(self),
                self.wf(),
                id < self.functions@.len(),
                self.heap().functions[id as int] == function_view(func),
                argument_names@.len() == i,
                forall|k: int| 0 <= k < i ==> #[trigger] declared[k] is Variable,
                forall|k: int|
                    0 <= k < i ==> (#[trigger] argument_names@[k])@ == names_of(declared)[k],
            decreases func.arguments@.len() - i,
        {
            match &func.arguments[i] {
                AstNodeType::Variable(boxed) => {
                    argument_names.push(boxed.name.clone());
                },
                _ => {
                    assert(!(declared[i as int] is Variable));
                    return failed("Invalid argument expression");
                },
            }
            i += 1;
        }
        if argument_names.len() != args.len() {
            return Err(Halt::ArityMismatch);
        }
        match self.get_closure_by_id(closure_id) {
            Ok(_) => {},
            Err(halt) => {
                return Err(halt);
            },
        }
        match self.push_frame(Creator::Function(id), closure_id) {
            Ok(_) => {},
            Err(halt) => {
                return Err(halt);
            },
        }
        let ghost names = names_of(declared);
        let ghost values = value_views(args@);
        let mut j: usize = 0;
        while j < argument_names.len()
            invariant
                0 <= j <= argument_names@.len(),
                argument_names@.len() == args@.len(),
                argument_names@.len() == names.len(),
                values == value_views(args@),
                forall|k: int|
                    0 <= k < argument_names@.len() ==> (#[trigger] argument_names@[k])@ == names[k],
                self.wf(),
                self.stack_size == old(self).stack_size,
                self.arithmetic == old(self).arithmetic,
                self.frames@.len() == old(self).frames@.len() + 1,
                self.frames@.drop_last() == old(self).frames@,
                self.env() == closure_id,
                closure_id < self.closures@.len(),
                self.heap() == bind_all(old(self).heap(), closure_id as nat, names, values, j as nat),
            decreases argument_names@.len() - j,
        {
            let name = argument_names[j].clone();
            let value = args[j].clone();
            self.set_variable(name, value);
            j += 1;
        }
        Ok(&func.body)
    }

    /// Calls what a name stands for, with the values of the arguments.
    #[verifier::spinoff_prover]
    fn call_function(&mut self, function: &'a AstFunctionCall, args: Vec<InterpValue>) -> (res:
        Result<InterpValue, Halt>)
        requires
            old(self).wf(),
        ensures
            final(self).wf(),
            final(self).same_stack(old(self)),
            final(self).agrees(
                res,
                dispatch(
                    function.name@,
                    body_view(function),
                    value_views(args@),
                    old(self).env(),
                    old(self).depth(),
                    old(self).heap(),
                    old(self).setting(),
                ),
            ),
        decreases budget(old(self).setting(), old(self).depth()), function, 0nat,
    {
        let mut args = args;
        let name = &function.name;
        if is_word(name, "while") {
            Ok(InterpValue::InterpVoid)
        } else if is_word(name, "if") {
            if args.len() != 1 {
                return failed("if statements can only have one parameter");
            }
            match &function.body {
                Some(body) => {
                    if args[0].evals_to_true() {
                        self.evaluate_block(body)
                    } else {
                        Ok(InterpValue::InterpVoid)
                    }
                },
                None => failed("If statement must have a body"),
            }
        } else if is_word(name, "print") {
            let ghost before = value_views(self.printed@);
            let ghost given = value_views(args@);
            self.printed.append(&mut args);
            assert(value_views(self.printed@) =~= before + given);
            Ok(InterpValue::InterpVoid)
        } else {
            let id = self.get_current_closure_id();
            match self.get_variable_of_closure(name, id) {
                Some(InterpValue::InterpFunction { id: function_id, closure_id }) => {
                    let body = match self.enter_function(function_id, closure_id, &args) {
                        Ok(body) => body,
                        Err(halt) => {
                            return Err(halt);
                        },
                    };
                    let res = self.evaluate_block(body);
                    match self.pop_frame() {
                        Ok(_) => {},
                        Err(halt) => {
                            return Err(halt);
                        },
                    }
                    assert(self.frames@ =~= old(self).frames@);
                    res
                },
                _ => {
                    let msg = joined("Unable to find function ", name.as_str());
                    Err(Halt::Error(InterpError::new(msg)))
                },
            }
        }
    }

    /// Evaluates a node in the current closure and frame.
    #[verifier::spinoff_prover]
    fn evaluate_next(&mut self, node: &'a AstNodeType) -> (res: Result<InterpValue, Halt>)
        requires
            old(self).wf(),
        ensures
            final(self).wf(),
            final(self).same_stack(old(self)),
            final(self).agrees(
                res,
                eval(
                    node@,
                    old(self).env(),
                    old(self).depth(),
                    old(self).heap(),
                    old(self).setting(),
                ),
            ),
        decreases budget(old(self).setting(), old(self).depth()), node, 1nat,
    {
        match node {
            AstNodeType::Block(boxed) => {
                let block: &'a AstBlock = &**boxed;
                self.evaluate_block(block)
            },
            AstNodeType::FunctionCall(boxed) => {
                let function: &'a AstFunctionCall = &**boxed;
                let args = match self.evaluate_all(&function.arguments) {
                    Ok(args) => args,
                    Err(halt) => {
                        return Err(halt);
                    },
                };
                self.call_function(function, args)
            },
            AstNodeType::StringValue(boxed) => Ok(InterpValue::InterpString(boxed.value.clone())),
            AstNodeType::NumberValue(boxed) => {
                let query = NumberQuery::Literal(boxed.value.clone());
                match self.arithmetic.lookup(&query) {
                    Some(bits) => Ok(InterpValue::InterpNumber(bits)),
                    None => Err(Halt::Pending(query)),
                }
            },
            AstNodeType::Variable(boxed) => self.get_variable(&boxed.name),
            AstNodeType::Assignment(boxed) => {
                let name = boxed.to.name.clone();
                let value = match self.evaluate_next(&boxed.from) {
                    Ok(value) => value,
                    Err(halt) => {
                        return Err(halt);
                    },
                };
                self.set_variable(name, value);
                Ok(InterpValue::InterpVoid)
            },
            AstNodeType::Alias(boxed) => {
                let name = boxed.to.name.clone();
                let value = match self.evaluate_next(&boxed.from) {
                    Ok(value) => value,
                    Err(halt) => {
                        return Err(halt);
                    },
                };
                self.set_variable(name, value);
                Ok(InterpValue::InterpVoid)
            },
            AstNodeType::OperatorCall(boxed) => {
                let lhs = match self.evaluate_next(&boxed.lhs) {
                    Ok(value) => value,
                    Err(halt) => {
                        return Err(halt);
                    },
                };
                let rhs = match self.evaluate_next(&boxed.rhs) {
                    Ok(value) => value,
                    Err(halt) => {
                        return Err(halt);
                    },
                };
                apply_operation(lhs, rhs, boxed.operator, self.arithmetic)
            },
            AstNodeType::StructDeclaration(boxed) => {
                let dec: &'a AstStructDeclaration = &**boxed;
                let ghost before = self.heap().structs;
                let index = self.structs.len();
                self.structs.push(dec);
                assert(self.heap().structs =~= before.push(structure_view(dec)));
                Ok(InterpValue::InterpStruct(index))
            },
            AstNodeType::FunctionDeclaration(boxed) => {
                let dec: &'a AstFunctionDeclaration = &**boxed;
                let ghost before = self.heap().functions;
                let index = self.functions.len();
                self.functions.push(dec);
                assert(self.heap().functions =~= before.push(function_view(dec)));
                let parent_closure_id = self.get_current_closure_id();
                let closure_id = self.add_closure(Creator::Function(index), parent_closure_id);
                Ok(InterpValue::InterpFunction { id: index, closure_id: closure_id })
            },
            AstNodeType::NullValue(_) => Ok(InterpValue::InterpVoid),
        }
    }
}

/// The values found so far, followed by those that the rest gives.
spec fn then_all(values: Seq<Value>, rest: Step<Seq<Value>>) -> Step<Seq<Value>> {
    Step {
        result: match rest.result {
            Ok(more) => Ok(values + more),
            Err(stop) => Err(stop),
        },
        heap: rest.heap,
    }
}

proof fn lemma_then_nothing(rest: Step<Seq<Value>>)
    ensures
        then_all(Seq::empty(), rest) == rest,
{
    match rest.result {
        Ok(more) => {
            assert(Seq::<Value>::empty() + more =~= more);
        },
        Err(_) => {},
    }
}

proof fn lemma_then_first(values: Seq<Value>, first: Value, rest: Step<Seq<Value>>)
    ensures
        then_all(
            values,
            Step {
                result: match rest.result {
                    Ok(more) => Ok(seq![first] + more),
                    Err(stop) => Err(stop),
                },
                heap: rest.heap,
            },
        ) == then_all(values.push(first), rest),
{
    match rest.result {
        Ok(more) => {
            assert(values + (seq![first] + more) =~= values.push(first) + more);
        },
        Err(_) => {},
    }
}

/// What an evaluation gave: its value or the reason why it stopped, and the
/// values that were handed to `print` up to then, in their order.
#[derive(Debug)]
pub struct Evaluation {
    pub result: Result<InterpValue, Halt>,
    pub printed: Vec<InterpValue>,
}

/// Evaluates a syntax tree with the given answers about numbers. A frame can
/// be put on the call stack as long as the index of the current frame is at
/// most `stack_size`; the first frame has index 0.
pub fn interp_within(ast: &Ast, arithmetic: &Arithmetic, stack_size: usize) -> (res: Evaluation)
    ensures
        ({
            let step = eval(
                ast@,
                0,
                0,
                initial_heap(),
                Setting { stack_size: stack_size as nat, numbers: arithmetic@ },
            );
            &&& result_view(res.result) == step.result
            &&& value_views(res.printed@) == step.heap.printed
        }),
{
    let mut closures: Vec<Closure> = Vec::new();
    closures.push(Closure::new(Creator::Script, None));
    let mut frames: Vec<StackFrame> = Vec::new();
    frames.push(StackFrame::new(0, Creator::Script, 0));
    let mut interp = Interp {
        stack_size: stack_size,
        functions: Vec::new(),
        structs: Vec::new(),
        closures: closures,
        frames: frames,
        printed: Vec::new(),
        arithmetic: arithmetic,
    };
    proof {
        assert(interp.heap().closures =~= initial_heap().closures);
        assert(interp.heap().functions =~= initial_heap().functions);
        assert(interp.heap().structs =~= initial_heap().structs);
        assert(interp.heap().printed =~= initial_heap().printed);
    }
    let result = interp.evaluate_next(&ast.root);
    Evaluation { result: result, printed: interp.printed }
}

/// Evaluates a syntax tree with the given answers about numbers. The result
/// is the value of the tree, or the failure of the script, or the first
/// question about numbers whose answer is missing; with it come the values
/// that were printed. A caller that has floating-point arithmetic answers the
/// question, adds the answer and evaluates again, until no question is left.
pub fn interp(ast: &Ast, arithmetic: &Arithmetic) -> (res: Evaluation)
    ensures
        result_view(res.result) == evaluate(ast@, arithmetic@).result,
        value_views(res.printed@) == evaluate(ast@, arithmetic@).heap.printed,
{
    interp_within(ast, arithmetic, STACK_SIZE)
}

} // verus!
