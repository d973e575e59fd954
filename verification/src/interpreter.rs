//! The evaluation engine. It is a machine with three parts: the heap, what it
//! is about to do (its control), and what is still to be done after that (its
//! tasks, innermost last). `Interpreter::step` takes one transition. A
//! transition either stays inside the machine, or asks the driver for
//! something that only the outside can give (a line printed, two numbers
//! added, a number rendered as text, the time), or ends the run.
//!
//! A `return` travels as a control of its own, pops the tasks it passes, and
//! is consumed by the nearest call. A runtime error ends the run on the spot.
//! What the resolver rules out, and what can therefore only come from a tree
//! that was not resolved, ends the run as a fault.
use vstd::prelude::*;
use crate::environment::{target, Environment};
use crate::expr::Expr;
use crate::heap::{arity_of, frame_pushed, method_of, Heap};
use crate::lox_callable::{callable_text, FunctionStmt, LoxCallable};
use crate::lox_class::LoxClass;
use crate::lox_instance::{bound, instance_text, undefined_property, LoxInstance};
use crate::number;
use crate::stmt::Stmt;
use crate::table::Table;
use crate::text::decimal_digits;
use crate::token::Token;
use crate::token_type::TokenType;
use crate::value::{undefined_variable, LoxValue, RuntimeError, RuntimeEvent};

verus! {

/// The four operations on two numbers that the driver computes.
#[derive(Debug, Clone, Copy, PartialEq, Eq)]
pub enum ArithmeticOperator {
    Add,
    Subtract,
    Multiply,
    Divide,
}

/// What ends a run though the program is not to blame: the tree breaks what
/// the resolver guarantees, or the driver answered what it was not asked.
#[derive(Debug, Clone, Copy, PartialEq, Eq)]
pub enum Fault {
    /// A unary expression with an operator that is neither `-` nor `!`.
    InvalidUnaryOperator,
    /// A member of a class body that is no function.
    ClassBodyNotMethods,
    /// A superclass clause that is no name and whose value is no class.
    SuperclassNotName,
    /// `super` is bound to something that is no class.
    SuperNotClass,
    /// `this` is bound to something that is no instance.
    ThisNotInstance,
    /// A scope distance leads further out than there are frames.
    ScopeDistance,
    /// A `return` outside every call.
    ReturnOutsideFunction,
    /// The driver's answer is not of the kind that was asked for.
    UnexpectedEvent,
    /// A result arrived where no task can take it.
    Misplaced,
}

/// What the driver is to do after a transition.
#[derive(Debug)]
pub enum Action {
    /// Nothing: take the next transition.
    Continue,
    /// Write this line to the output, then take the next transition.
    Print(String),
    /// Compute on these two numbers, and hand the result to the next
    /// transition as `Event::Number`.
    Arithmetic { operator: ArithmeticOperator, left: u64, right: u64 },
    /// Render this number as text, and hand the text to the next transition
    /// as `Event::Text`.
    Format(u64),
    /// Read the time in seconds since the epoch as a number, and hand it to
    /// the next transition as `Event::Number`.
    Clock,
    /// The statements that were loaded have all been executed.
    Finished,
    /// The run has ended with a runtime error.
    Failed(RuntimeError),
    /// The run has ended with a fault.
    Fault(Fault),
}

/// What the driver hands to a transition.
#[derive(Debug)]
pub enum Event {
    /// Nothing: the last action asked for no answer.
    Proceed,
    /// The number that the last action asked for.
    Number(u64),
    /// The text that the last action asked for.
    Text(String),
}

/// What the machine is about to do.
pub enum Control<'a> {
    /// Nothing: no statements are loaded, or the run has ended.
    Idle,
    /// Execute a statement in a frame.
    Execute { statement: &'a Stmt, environment: usize },
    /// Evaluate an expression in a frame.
    Evaluate { expression: &'a Expr, environment: usize },
    /// Hand the value of an expression to the innermost task.
    Value(LoxValue),
    /// Tell the innermost task that a statement has completed.
    Completed,
    /// Carry a returned value to the nearest call.
    Returning(LoxValue),
    /// Wait for a number from the driver.
    AwaitNumber,
    /// Wait for a text from the driver.
    AwaitText,
}

/// What is still to be done once the control has come to a result.
#[allow(inconsistent_fields)]
pub enum Task<'a> {
    /// Go on with the statement at `next` of a list.
    Sequence { statements: &'a Vec<Stmt>, next: usize, environment: usize },
    /// Drop the value of an expression statement.
    Discard,
    /// Print the value.
    Print,
    /// Bind the value to a declared variable.
    Define { name: &'a Token, environment: usize },
    /// Choose a branch of an `if` by the value.
    Branch { then_branch: &'a Stmt, else_branch: Option<&'a Stmt>, environment: usize },
    /// Enter or leave a loop by the value of its condition.
    LoopTest { condition: &'a Expr, body: &'a Stmt, environment: usize },
    /// Test the condition of a loop again after its body.
    LoopBody { condition: &'a Expr, body: &'a Stmt, environment: usize },
    /// Return the value.
    Return,
    /// Make a class whose superclass is the value.
    Superclass { name: &'a Token, clause: &'a Expr, methods: &'a Vec<Stmt>, environment: usize },
    /// Apply a unary operator to the value.
    Unary { operator: &'a Token },
    /// Evaluate the right operand, the value being the left one.
    BinaryRight { operator: &'a Token, right: &'a Expr, environment: usize },
    /// Apply a binary operator, the value being the right operand.
    BinaryApply { operator: &'a Token, left: LoxValue },
    /// Assign the value to a variable.
    Assign { name: &'a Token, depth: Option<usize>, environment: usize },
    /// Choose a branch of a conditional expression by the value.
    Choose { then_branch: &'a Expr, else_branch: &'a Expr, environment: usize },
    /// Short-circuit on the value, or evaluate the right operand.
    Logical { operator: &'a Token, right: &'a Expr, environment: usize },
    /// Evaluate the arguments of a call, the value being the callee.
    Callee { arguments: &'a Vec<Expr>, closing_paren: &'a Token, environment: usize },
    /// Take the value as the next argument of a call.
    Argument {
        callee: LoxValue,
        arguments: &'a Vec<Expr>,
        evaluated: Vec<LoxValue>,
        closing_paren: &'a Token,
        environment: usize,
    },
    /// Read a property of the value.
    Get { name: &'a Token },
    /// Evaluate what is to be stored, the value being the object.
    SetObject { name: &'a Token, value: &'a Expr, environment: usize },
    /// Store the value in a field.
    SetValue { instance: usize, name: &'a Token },
    /// The boundary of a call: take the result of the function body.
    Call { is_initializer: bool, closure: usize, line: usize },
    /// Hand out the new instance once its initializer is done.
    Construct { instance: usize },
    /// Put the text of a number behind this text.
    JoinAfter { left: String },
    /// Put the text of a number before this text.
    JoinBefore { right: String },
    /// Print the text of a number.
    PrintText,
}

/// Whether a control names only what the heap holds.
pub open spec fn control_ok<'a>(heap: Heap<'a>, control: Control<'a>) -> bool {
    match control {
        Control::Execute { environment, .. } => environment < heap.frames@.len(),
        Control::Evaluate { environment, .. } => environment < heap.frames@.len(),
        Control::Value(value) => heap.value_ok(value),
        Control::Returning(value) => heap.value_ok(value),
        _ => true,
    }
}

/// Whether a task names only what the heap holds.
pub open spec fn task_ok<'a>(heap: Heap<'a>, task: Task<'a>) -> bool {
    match task {
        Task::Sequence { environment, .. } => environment < heap.frames@.len(),
        Task::Define { environment, .. } => environment < heap.frames@.len(),
        Task::Branch { environment, .. } => environment < heap.frames@.len(),
        Task::LoopTest { environment, .. } => environment < heap.frames@.len(),
        Task::LoopBody { environment, .. } => environment < heap.frames@.len(),
        Task::Superclass { environment, .. } => environment < heap.frames@.len(),
        Task::BinaryRight { environment, .. } => environment < heap.frames@.len(),
        Task::BinaryApply { left, .. } => heap.value_ok(left),
        Task::Assign { environment, .. } => environment < heap.frames@.len(),
        Task::Choose { environment, .. } => environment < heap.frames@.len(),
        Task::Logical { environment, .. } => environment < heap.frames@.len(),
        Task::Callee { environment, .. } => environment < heap.frames@.len(),
        Task::Argument { callee, arguments, evaluated, environment, .. } => {
            &&& environment < heap.frames@.len()
            &&& heap.value_ok(callee)
            &&& evaluated@.len() < arguments@.len()
            &&& forall|i: int| 0 <= i < evaluated@.len() ==> heap.value_ok(#[trigger] evaluated@[i])
        },
        Task::SetObject { environment, .. } => environment < heap.frames@.len(),
        Task::SetValue { instance, .. } => instance < heap.instances@.len(),
        Task::Call { closure, .. } => closure < heap.frames@.len(),
        Task::Construct { instance } => instance < heap.instances@.len(),
        _ => true,
    }
}

/// Whether every task names only what the heap holds.
pub open spec fn tasks_ok<'a>(heap: Heap<'a>, tasks: Seq<Task<'a>>) -> bool {
    forall|i: int| 0 <= i < tasks.len() ==> task_ok(heap, #[trigger] tasks[i])
}

/// Whether `later` holds everything that `earlier` holds, at the same places.
pub open spec fn grown<'a>(earlier: Heap<'a>, later: Heap<'a>) -> bool {
    &&& earlier.frames@.len() <= later.frames@.len()
    &&& earlier.callables@.len() <= later.callables@.len()
    &&& earlier.instances@.len() <= later.instances@.len()
}

/// What named only things of a heap still does so when the heap has grown.
pub proof fn lemma_tasks_ok_grown<'a>(earlier: Heap<'a>, later: Heap<'a>, tasks: Seq<Task<'a>>)
    requires
        tasks_ok(earlier, tasks),
        grown(earlier, later),
    ensures
        tasks_ok(later, tasks),
{
    assert forall|i: int| 0 <= i < tasks.len() implies task_ok(later, #[trigger] tasks[i]) by {
        assert(task_ok(earlier, tasks[i]));
    }
}

/// The interpreter: a heap, a control and a stack of tasks.
pub struct Interpreter<'a> {
    heap: Heap<'a>,
    control: Control<'a>,
    tasks: Vec<Task<'a>>,
}

impl<'a> Interpreter<'a> {
    /// The heap.
    pub closed spec fn heap(self) -> Heap<'a> {
        self.heap
    }

    /// What the machine is about to do.
    pub closed spec fn control(self) -> Control<'a> {
        self.control
    }

    /// What is still to be done after that, innermost last.
    pub closed spec fn tasks(self) -> Seq<Task<'a>> {
        self.tasks@
    }

    /// The machine's invariant: the heap is well formed, it has the global
    /// frame, and the control and the tasks name only what it holds.
    pub open spec fn well_formed(self) -> bool {
        &&& self.heap().well_formed()
        &&& self.heap().frames@.len() > 0
        &&& control_ok(self.heap(), self.control())
        &&& tasks_ok(self.heap(), self.tasks())
    }

    /// The machine has this heap, these tasks and this control.
    pub open spec fn has(self, heap: Heap<'a>, tasks: Seq<Task<'a>>, control: Control<'a>) -> bool {
        &&& self.heap() == heap
        &&& self.tasks() == tasks
        &&& self.control() == control
    }

    /// The run has ended with the runtime error at `token`.
    pub open spec fn failed(self, action: Action, heap: Heap<'a>, token: Token, message: Seq<char>) -> bool {
        &&& self.has(heap, Seq::empty(), Control::Idle)
        &&& action matches Action::Failed(error)
        &&& error.is(token, message)
    }

    /// The run has ended with a runtime error on the given line.
    pub open spec fn failed_on_line(self, action: Action, heap: Heap<'a>, line: usize, message: Seq<char>) -> bool {
        &&& self.has(heap, Seq::empty(), Control::Idle)
        &&& action matches Action::Failed(error)
        &&& error.token.line == line
        &&& error.message@ == message
    }

    /// The run has ended with a fault.
    pub open spec fn faulted(self, action: Action, heap: Heap<'a>, fault: Fault) -> bool {
        &&& self.has(heap, Seq::empty(), Control::Idle)
        &&& action == Action::Fault(fault)
    }

    /// The machine went on inside itself to the given tasks and control, on
    /// the same heap.
    pub open spec fn went(self, action: Action, heap: Heap<'a>, tasks: Seq<Task<'a>>, control: Control<'a>) -> bool {
        &&& self.has(heap, tasks, control)
        &&& action is Continue
    }

    /// Ends the run with a runtime error.
    fn fail(&mut self, error: RuntimeError) -> (action: Action)
        requires
            old(self).heap.well_formed(),
            old(self).heap.frames@.len() > 0,
        ensures
            final(self).well_formed(),
            final(self).has(old(self).heap(), Seq::empty(), Control::Idle),
            action == Action::Failed(error),
    {
        self.tasks.clear();
        self.control = Control::Idle;
        Action::Failed(error)
    }

    /// Ends the run with the runtime error at `token`.
    fn fail_at(&mut self, token: &Token, message: &str) -> (action: Action)
        requires
            old(self).heap.well_formed(),
            old(self).heap.frames@.len() > 0,
        ensures
            final(self).well_formed(),
            final(self).failed(action, old(self).heap(), *token, message@),
    {
        self.fail(RuntimeError::new(token.clone(), String::from_str(message)))
    }

    /// Ends the run with what left the normal course of a heap operation.
    fn fail_with(&mut self, event: RuntimeEvent) -> (action: Action)
        requires
            old(self).heap.well_formed(),
            old(self).heap.frames@.len() > 0,
            event is Error,
        ensures
            final(self).well_formed(),
            final(self).has(old(self).heap(), Seq::empty(), Control::Idle),
            action == Action::Failed(event->Error_0),
    {
        match event {
            RuntimeEvent::Error(error) => self.fail(error),
            RuntimeEvent::Return(_) => {
                assert(false);
                Action::Continue
            },
        }
    }

    /// Ends the run with a fault.
    fn fault(&mut self, fault: Fault) -> (action: Action)
        requires
            old(self).heap.well_formed(),
            old(self).heap.frames@.len() > 0,
        ensures
            final(self).well_formed(),
            final(self).faulted(action, old(self).heap(), fault),
    {
        self.tasks.clear();
        self.control = Control::Idle;
        Action::Fault(fault)
    }

    /// Goes on with the given control.
    fn go(&mut self, control: Control<'a>) -> (action: Action)
        requires
            old(self).heap.well_formed(),
            old(self).heap.frames@.len() > 0,
            tasks_ok(old(self).heap, old(self).tasks@),
            control_ok(old(self).heap, control),
        ensures
            final(self).well_formed(),
            final(self).went(action, old(self).heap(), old(self).tasks(), control),
    {
        self.control = control;
        Action::Continue
    }

    /// Puts a task on the stack and goes on with the given control.
    fn push(&mut self, task: Task<'a>, control: Control<'a>) -> (action: Action)
        requires
            old(self).heap.well_formed(),
            old(self).heap.frames@.len() > 0,
            tasks_ok(old(self).heap, old(self).tasks@),
            task_ok(old(self).heap, task),
            control_ok(old(self).heap, control),
        ensures
            final(self).well_formed(),
            final(self).went(action, old(self).heap(), old(self).tasks().push(task), control),
    {
        self.tasks.push(task);
        self.control = control;
        Action::Continue
    }
}

/// The name under which a method finds its instance.
pub open spec fn this_name() -> Seq<char> {
    "this"@
}

/// What looking a name up gives: a fault if the scope distance leads
/// nowhere; else the value bound to the name in the frame it leads to; else
/// the error of an undefined variable.
pub open spec fn looked_up<'a>(
    h: Heap<'a>,
    t: Seq<Task<'a>>,
    environment: usize,
    distance: Option<usize>,
    name: Token,
    post: Interpreter<'a>,
    action: Action,
) -> bool {
    match target(h.frames@, environment as int, distance) {
        None => post.faulted(action, h, Fault::ScopeDistance),
        Some(at) => if h.frames@[at].bindings().contains_key(name.lexeme@) {
            post.went(action, h, t, Control::Value(h.frames@[at].bindings()[name.lexeme@]))
        } else {
            post.failed(action, h, name, undefined_variable(name.lexeme@))
        },
    }
}

/// What `super.method` gives. `super` is looked up at its scope distance and
/// must be a class; `this` is looked up one frame further in and must be an
/// instance; the method is looked up from that superclass on, whatever the
/// class of the instance is, and is bound to the instance.
pub open spec fn super_looked_up<'a>(
    h: Heap<'a>,
    t: Seq<Task<'a>>,
    environment: usize,
    keyword: Token,
    method: Token,
    depth: usize,
    post: Interpreter<'a>,
    action: Action,
) -> bool {
    match target(h.frames@, environment as int, Some(depth)) {
        None => post.faulted(action, h, Fault::ScopeDistance),
        Some(at) => if !h.frames@[at].bindings().contains_key(keyword.lexeme@) {
            post.failed(action, h, keyword, undefined_variable(keyword.lexeme@))
        } else {
            match h.frames@[at].bindings()[keyword.lexeme@] {
                LoxValue::Callable(class) => if !h.is_class(class) {
                    post.faulted(action, h, Fault::SuperNotClass)
                } else if depth == 0 {
                    post.faulted(action, h, Fault::ScopeDistance)
                } else {
                    let inner = target(
                        h.frames@,
                        environment as int,
                        Some((depth - 1) as usize),
                    ).unwrap();
                    if !h.frames@[inner].bindings().contains_key(this_name()) {
                        post.failed_on_line(
                            action,
                            h,
                            keyword.line,
                            undefined_variable(this_name()),
                        )
                    } else {
                        match h.frames@[inner].bindings()[this_name()] {
                            LoxValue::Instance(instance) => match method_of(
                                h.callables@,
                                class as int,
                                method.lexeme@,
                            ) {
                                Some(m) => {
                                    &&& action is Continue
                                    &&& post.tasks() == t
                                    &&& post.control() matches Control::Value(value)
                                    &&& bound(h, post.heap(), m, instance, value)
                                },
                                None => post.failed(
                                    action,
                                    h,
                                    method,
                                    undefined_property(method.lexeme@),
                                ),
                            },
                            _ => post.faulted(action, h, Fault::ThisNotInstance),
                        }
                    }
                },
                _ => post.faulted(action, h, Fault::SuperNotClass),
            }
        },
    }
}

/// The transition that begins the evaluation of an expression in a frame,
/// from a machine with heap `h` and tasks `t`. An expression with operands
/// puts a task on the stack that says what to do with the first operand's
/// value, and goes on to evaluate that operand; a literal, a variable, `this`
/// and `super` come to their value at once.
pub open spec fn evaluated<'a>(
    h: Heap<'a>,
    t: Seq<Task<'a>>,
    expression: &'a Expr,
    environment: usize,
    post: Interpreter<'a>,
    action: Action,
) -> bool {
    match expression {
        Expr::Literal { value } => {
            &&& action is Continue
            &&& post.heap() == h
            &&& post.tasks() == t
            &&& post.control() matches Control::Value(v)
            &&& value.denotes(v)
        },
        Expr::Grouping { expression: inner } => post.went(
            action,
            h,
            t,
            Control::Evaluate { expression: &**inner, environment },
        ),
        Expr::Unary { operator, right } => post.went(
            action,
            h,
            t.push(Task::Unary { operator }),
            Control::Evaluate { expression: &**right, environment },
        ),
        Expr::Binary { left, operator, right } => post.went(
            action,
            h,
            t.push(Task::BinaryRight { operator, right: &**right, environment }),
            Control::Evaluate { expression: &**left, environment },
        ),
        Expr::Variable { name, depth } => looked_up(h, t, environment, *depth, *name, post, action),
        Expr::Assign { name, value, depth } => post.went(
            action,
            h,
            t.push(Task::Assign { name, depth: *depth, environment }),
            Control::Evaluate { expression: &**value, environment },
        ),
        Expr::Conditional { condition, then_branch, else_branch } => post.went(
            action,
            h,
            t.push(
                Task::Choose { then_branch: &**then_branch, else_branch: &**else_branch, environment },
            ),
            Control::Evaluate { expression: &**condition, environment },
        ),
        Expr::Logical { left, operator, right } => post.went(
            action,
            h,
            t.push(Task::Logical { operator, right: &**right, environment }),
            Control::Evaluate { expression: &**left, environment },
        ),
        Expr::Call { callee, closing_paren, arguments } => post.went(
            action,
            h,
            t.push(Task::Callee { arguments, closing_paren, environment }),
            Control::Evaluate { expression: &**callee, environment },
        ),
        Expr::Get { object, name } => post.went(
            action,
            h,
            t.push(Task::Get { name }),
            Control::Evaluate { expression: &**object, environment },
        ),
        Expr::SetProperty { object, name, value } => post.went(
            action,
            h,
            t.push(Task::SetObject { name, value: &**value, environment }),
            Control::Evaluate { expression: &**object, environment },
        ),
        Expr::This { keyword, depth } => looked_up(
            h,
            t,
            environment,
            Some(*depth),
            *keyword,
            post,
            action,
        ),
        Expr::Super { keyword, method, depth } => super_looked_up(
            h,
            t,
            environment,
            *keyword,
            *method,
            *depth,
            post,
            action,
        ),
    }
}

impl<'a> Interpreter<'a> {
    /// Looks a name up at a scope distance and goes on with its value.
    fn look_up(&mut self, environment: usize, distance: Option<usize>, name: &Token) -> (action:
        Action)
        requires
            old(self).heap.well_formed(),
            tasks_ok(old(self).heap, old(self).tasks@),
            environment < old(self).heap.frames@.len(),
        ensures
            final(self).well_formed(),
            looked_up(
                old(self).heap(),
                old(self).tasks(),
                environment,
                distance,
                *name,
                *final(self),
                action,
            ),
    {
        if !self.heap.reaches(environment, distance) {
            return self.fault(Fault::ScopeDistance);
        }
        match self.heap.get_at(environment, distance, name) {
            Ok(value) => self.go(Control::Value(value)),
            Err(event) => self.fail_with(event),
        }
    }

    /// Evaluates `super.method`.
    fn look_up_super(
        &mut self,
        environment: usize,
        keyword: &Token,
        method: &Token,
        depth: usize,
    ) -> (action: Action)
        requires
            old(self).heap.well_formed(),
            tasks_ok(old(self).heap, old(self).tasks@),
            environment < old(self).heap.frames@.len(),
        ensures
            final(self).well_formed(),
            super_looked_up(
                old(self).heap(),
                old(self).tasks(),
                environment,
                *keyword,
                *method,
                depth,
                *final(self),
                action,
            ),
    {
        if !self.heap.reaches(environment, Some(depth)) {
            return self.fault(Fault::ScopeDistance);
        }
        let superclass = match self.heap.get_at(environment, Some(depth), keyword) {
            Ok(value) => value,
            Err(event) => {
                return self.fail_with(event);
            },
        };
        let class = match superclass {
            LoxValue::Callable(class) => class,
            _ => {
                return self.fault(Fault::SuperNotClass);
            },
        };
        match &self.heap.callables[class] {
            LoxCallable::Class { .. } => {},
            _ => {
                return self.fault(Fault::SuperNotClass);
            },
        }
        if depth == 0 {
            return self.fault(Fault::ScopeDistance);
        }
        proof {
            lemma_shorter_reaches(self.heap.frames@, environment as int, depth as nat);
        }
        let this_token = Token::new(TokenType::This, String::from_str("this"), keyword.line);
        let this_value = match self.heap.get_at(environment, Some(depth - 1), &this_token) {
            Ok(value) => value,
            Err(event) => {
                return self.fail_with(event);
            },
        };
        let instance = match this_value {
            LoxValue::Instance(instance) => instance,
            _ => {
                return self.fault(Fault::ThisNotInstance);
            },
        };
        match LoxClass::find_method(&self.heap, class, &method.lexeme) {
            Some(found) => {
                let value = found.bind(instance, &mut self.heap);
                proof {
                    lemma_tasks_ok_grown(old(self).heap, self.heap, self.tasks@);
                }
                self.go(Control::Value(value))
            },
            None => self.fail(
                RuntimeError::new(
                    method.clone(),
                    crate::text::join3("Undefined property '", method.lexeme.as_str(), "'."),
                ),
            ),
        }
    }

    /// Begins the evaluation of an expression in a frame.
    fn evaluate(&mut self, expression: &'a Expr, environment: usize) -> (action: Action)
        requires
            old(self).heap.well_formed(),
            tasks_ok(old(self).heap, old(self).tasks@),
            environment < old(self).heap.frames@.len(),
        ensures
            final(self).well_formed(),
            evaluated(
                old(self).heap(),
                old(self).tasks(),
                expression,
                environment,
                *final(self),
                action,
            ),
    {
        match expression {
            Expr::Literal { value } => self.go(Control::Value(value.into())),
            Expr::Grouping { expression: inner } => self.go(
                Control::Evaluate { expression: &**inner, environment },
            ),
            Expr::Unary { operator, right } => self.push(
                Task::Unary { operator },
                Control::Evaluate { expression: &**right, environment },
            ),
            Expr::Binary { left, operator, right } => self.push(
                Task::BinaryRight { operator, right: &**right, environment },
                Control::Evaluate { expression: &**left, environment },
            ),
            Expr::Variable { name, depth } => self.look_up(environment, *depth, name),
            Expr::Assign { name, value, depth } => self.push(
                Task::Assign { name, depth: *depth, environment },
                Control::Evaluate { expression: &**value, environment },
            ),
            Expr::Conditional { condition, then_branch, else_branch } => self.push(
                Task::Choose {
                    then_branch: &**then_branch,
                    else_branch: &**else_branch,
                    environment,
                },
                Control::Evaluate { expression: &**condition, environment },
            ),
            Expr::Logical { left, operator, right } => self.push(
                Task::Logical { operator, right: &**right, environment },
                Control::Evaluate { expression: &**left, environment },
            ),
            Expr::Call { callee, closing_paren, arguments } => self.push(
                Task::Callee { arguments, closing_paren, environment },
                Control::Evaluate { expression: &**callee, environment },
            ),
            Expr::Get { object, name } => self.push(
                Task::Get { name },
                Control::Evaluate { expression: &**object, environment },
            ),
            Expr::SetProperty { object, name, value } => self.push(
                Task::SetObject { name, value: &**value, environment },
                Control::Evaluate { expression: &**object, environment },
            ),
            Expr::This { keyword, depth } => self.look_up(environment, Some(*depth), keyword),
            Expr::Super { keyword, method, depth } => self.look_up_super(
                environment,
                keyword,
                method,
                *depth,
            ),
        }
    }
}

/// A chain that has `hops` links has every smaller number of links too.
pub proof fn lemma_shorter_reaches(frames: Seq<Environment>, this: int, hops: nat)
    requires
        crate::environment::hop(frames, this, hops) is Some,
        hops > 0,
    ensures
        crate::environment::hop(frames, this, (hops - 1) as nat) is Some,
    decreases hops,
{
    if hops > 1 {
        match frames[this].parent() {
            Some(p) => lemma_shorter_reaches(frames, p as int, (hops - 1) as nat),
            None => {},
        }
    }
}

/// The machine goes on with the statement at `index` of a list, with the
/// rest of the list as a task; at the end of the list, the list has
/// completed.
pub open spec fn sequenced<'a>(
    t: Seq<Task<'a>>,
    statements: &'a Vec<Stmt>,
    index: usize,
    environment: usize,
    post: Interpreter<'a>,
) -> bool {
    if index < statements@.len() {
        &&& post.tasks() == t.push(
            Task::Sequence { statements, next: (index + 1) as usize, environment },
        )
        &&& post.control() == (Control::Execute { statement: &statements@[index as int], environment })
    } else {
        &&& post.tasks() == t
        &&& post.control() == Control::Completed
    }
}

/// A statement has completed after binding `name` to `value` in a frame.
pub open spec fn defined<'a>(
    h: Heap<'a>,
    t: Seq<Task<'a>>,
    environment: usize,
    name: Seq<char>,
    value: LoxValue,
    post: Interpreter<'a>,
    action: Action,
) -> bool {
    &&& action is Continue
    &&& crate::environment::rebound(
        h.frames@,
        post.heap().frames@,
        environment as int,
        name,
        value,
    )
    &&& post.heap().callables == h.callables
    &&& post.heap().instances == h.instances
    &&& post.tasks() == t
    &&& post.control() == Control::Completed
}

/// The function that a function statement declares, with the given closure.
/// As a method it is an initializer if it is called `init`.
pub open spec fn declared_function<'a>(
    statement: &'a Stmt,
    closure: usize,
    method: bool,
) -> LoxCallable<'a> {
    match statement {
        Stmt::Function { name, params, body } => LoxCallable::Function {
            declaration: FunctionStmt { name, params, body },
            closure,
            is_initializer: method && name.lexeme@ == "init"@,
        },
        _ => LoxCallable::ClockFunction,
    }
}

/// The method table of a class whose first `upto` members were entered, the
/// function of member `i` being the callable at `base + i`. Of two members
/// with one name, the later one counts.
pub open spec fn method_table(methods: Seq<Stmt>, upto: nat, base: nat) -> Map<Seq<char>, usize>
    decreases upto,
{
    if upto == 0 || upto > methods.len() {
        Map::empty()
    } else {
        match methods[upto - 1] {
            Stmt::Function { name, .. } => method_table(methods, (upto - 1) as nat, base).insert(
                name.lexeme@,
                (base + upto - 1) as usize,
            ),
            _ => method_table(methods, (upto - 1) as nat, base),
        }
    }
}

/// Whether every member of a class body is a function.
pub open spec fn all_functions(methods: Seq<Stmt>) -> bool {
    forall|i: int| 0 <= i < methods.len() ==> (#[trigger] methods[i]) is Function
}

/// A class statement has completed. The heap has one function for each
/// method, in the order of the class body, and after them the class; the
/// class's name, which is bound to `nil` before anything else happens, is
/// bound to the class in the frame of the statement. With a
/// superclass there is one more frame, inside the frame of the statement,
/// which binds `super` to the superclass and is the closure of every method;
/// without one, the frame of the statement is that closure. A class body with
/// a member that is no function is a fault.
pub open spec fn class_made<'a>(
    h: Heap<'a>,
    t: Seq<Task<'a>>,
    name: &'a Token,
    superclass: Option<usize>,
    methods: &'a Vec<Stmt>,
    environment: usize,
    post: Interpreter<'a>,
    action: Action,
) -> bool {
    if !all_functions(methods@) {
        post.faulted(action, h, Fault::ClassBodyNotMethods)
    } else {
        let base = h.callables@.len();
        let made = base + methods@.len();
        let closure = if superclass is Some {
            h.frames@.len() as usize
        } else {
            environment
        };
        &&& action is Continue
        &&& post.tasks() == t
        &&& post.control() == Control::Completed
        &&& post.heap().instances == h.instances
        &&& match superclass {
            Some(s) => {
                &&& post.heap().frames@.len() == h.frames@.len() + 1
                &&& crate::environment::rebound(
                    h.frames@,
                    post.heap().frames@.drop_last(),
                    environment as int,
                    name.lexeme@,
                    LoxValue::Callable(made as usize),
                )
                &&& post.heap().frames@.last().parent() == Some(environment)
                &&& post.heap().frames@.last().bindings() == Map::<
                    Seq<char>,
                    LoxValue,
                >::empty().insert("super"@, LoxValue::Callable(s))
            },
            None => crate::environment::rebound(
                h.frames@,
                post.heap().frames@,
                environment as int,
                name.lexeme@,
                LoxValue::Callable(made as usize),
            ),
        }
        &&& post.heap().callables@.len() == made + 1
        &&& post.heap().callables@.subrange(0, base as int) == h.callables@
        &&& forall|i: int|
            0 <= i < methods@.len() ==> #[trigger] post.heap().callables@[base + i]
                == declared_function(&methods@[i], closure, true)
        &&& post.heap().callables@[made as int] matches LoxCallable::Class { class }
        &&& class.name@ == name.lexeme@
        &&& class.superclass == superclass
        &&& class.methods@ == method_table(methods@, methods@.len(), base)
    }
}

/// The transition that begins the execution of a statement in a frame, from
/// a machine with heap `h` and tasks `t`.
pub open spec fn executed<'a>(
    h: Heap<'a>,
    t: Seq<Task<'a>>,
    statement: &'a Stmt,
    environment: usize,
    post: Interpreter<'a>,
    action: Action,
) -> bool {
    match statement {
        Stmt::Expression { expr } => post.went(
            action,
            h,
            t.push(Task::Discard),
            Control::Evaluate { expression: expr, environment },
        ),
        Stmt::Print { expr } => post.went(
            action,
            h,
            t.push(Task::Print),
            Control::Evaluate { expression: expr, environment },
        ),
        Stmt::Var { name, initializer } => match initializer {
            Some(value) => post.went(
                action,
                h,
                t.push(Task::Define { name, environment }),
                Control::Evaluate { expression: value, environment },
            ),
            None => defined(h, t, environment, name.lexeme@, LoxValue::Nil, post, action),
        },
        Stmt::Block { statements } => {
            &&& action is Continue
            &&& frame_pushed(h.frames@, post.heap().frames@, Some(environment), Map::empty())
            &&& post.heap().callables == h.callables
            &&& post.heap().instances == h.instances
            &&& sequenced(t, statements, 0, h.frames@.len() as usize, post)
        },
        Stmt::If { condition, then_branch, else_branch } => post.went(
            action,
            h,
            t.push(
                Task::Branch {
                    then_branch: &**then_branch,
                    else_branch: match else_branch {
                        Some(otherwise) => Some(&**otherwise),
                        None => None,
                    },
                    environment,
                },
            ),
            Control::Evaluate { expression: condition, environment },
        ),
        Stmt::While { condition, body } => post.went(
            action,
            h,
            t.push(Task::LoopTest { condition, body: &**body, environment }),
            Control::Evaluate { expression: condition, environment },
        ),
        Stmt::Function { name, .. } => {
            &&& action is Continue
            &&& post.heap().callables@ == h.callables@.push(
                declared_function(statement, environment, false),
            )
            &&& crate::environment::rebound(
                h.frames@,
                post.heap().frames@,
                environment as int,
                name.lexeme@,
                LoxValue::Callable(h.callables@.len() as usize),
            )
            &&& post.heap().instances == h.instances
            &&& post.tasks() == t
            &&& post.control() == Control::Completed
        },
        Stmt::Return { value, .. } => match value {
            Some(result) => post.went(
                action,
                h,
                t.push(Task::Return),
                Control::Evaluate { expression: result, environment },
            ),
            None => post.went(action, h, t, Control::Returning(LoxValue::Nil)),
        },
        Stmt::Class { name, superclass, methods } => match superclass {
            Some(clause) => {
                &&& action is Continue
                &&& crate::environment::rebound(
                    h.frames@,
                    post.heap().frames@,
                    environment as int,
                    name.lexeme@,
                    LoxValue::Nil,
                )
                &&& post.heap().callables == h.callables
                &&& post.heap().instances == h.instances
                &&& post.tasks() == t.push(Task::Superclass { name, clause, methods, environment })
                &&& post.control() == (Control::Evaluate { expression: clause, environment })
            },
            None => class_made(h, t, name, None, methods, environment, post, action),
        },
    }
}

impl<'a> Interpreter<'a> {
    /// Goes on with the statement at `index` of a list.
    fn sequence(&mut self, statements: &'a Vec<Stmt>, index: usize, environment: usize) -> (action:
        Action)
        requires
            old(self).heap.well_formed(),
            tasks_ok(old(self).heap, old(self).tasks@),
            environment < old(self).heap.frames@.len(),
        ensures
            final(self).well_formed(),
            action is Continue,
            final(self).heap() == old(self).heap(),
            sequenced(old(self).tasks(), statements, index, environment, *final(self)),
    {
        if index < statements.len() {
            self.push(
                Task::Sequence { statements, next: index + 1, environment },
                Control::Execute { statement: &statements[index], environment },
            )
        } else {
            self.go(Control::Completed)
        }
    }

    /// Binds a name in a frame and completes the statement.
    fn define(&mut self, environment: usize, name: &Token, value: LoxValue) -> (action: Action)
        requires
            old(self).heap.well_formed(),
            tasks_ok(old(self).heap, old(self).tasks@),
            environment < old(self).heap.frames@.len(),
            old(self).heap.value_ok(value),
        ensures
            final(self).well_formed(),
            defined(
                old(self).heap(),
                old(self).tasks(),
                environment,
                name.lexeme@,
                value,
                *final(self),
                action,
            ),
    {
        self.heap.define(environment, name.lexeme.clone(), value);
        proof {
            lemma_tasks_ok_grown(old(self).heap, self.heap, self.tasks@);
        }
        self.go(Control::Completed)
    }

    /// Begins the execution of a statement in a frame.
    fn execute(&mut self, statement: &'a Stmt, environment: usize) -> (action: Action)
        requires
            old(self).heap.well_formed(),
            tasks_ok(old(self).heap, old(self).tasks@),
            environment < old(self).heap.frames@.len(),
        ensures
            final(self).well_formed(),
            executed(
                old(self).heap(),
                old(self).tasks(),
                statement,
                environment,
                *final(self),
                action,
            ),
    {
        match statement {
            Stmt::Expression { expr } => self.push(
                Task::Discard,
                Control::Evaluate { expression: expr, environment },
            ),
            Stmt::Print { expr } => self.push(
                Task::Print,
                Control::Evaluate { expression: expr, environment },
            ),
            Stmt::Var { name, initializer } => match initializer {
                Some(value) => self.push(
                    Task::Define { name, environment },
                    Control::Evaluate { expression: value, environment },
                ),
                None => self.define(environment, name, LoxValue::Nil),
            },
            Stmt::Block { statements } => {
                let frame = self.heap.new_frame(Some(environment));
                proof {
                    lemma_tasks_ok_grown(old(self).heap, self.heap, self.tasks@);
                }
                self.sequence(statements, 0, frame)
            },
            Stmt::If { condition, then_branch, else_branch } => {
                let otherwise: Option<&'a Stmt> = match else_branch {
                    Some(otherwise) => Some(&**otherwise),
                    None => None,
                };
                self.push(
                    Task::Branch { then_branch: &**then_branch, else_branch: otherwise, environment },
                    Control::Evaluate { expression: condition, environment },
                )
            },
            Stmt::While { condition, body } => self.push(
                Task::LoopTest { condition, body: &**body, environment },
                Control::Evaluate { expression: condition, environment },
            ),
            Stmt::Function { name, params, body } => {
                let function = self.heap.new_callable(
                    LoxCallable::new_function(
                        FunctionStmt { name, params, body },
                        environment,
                        false,
                    ),
                );
                self.heap.define(environment, name.lexeme.clone(), LoxValue::Callable(function));
                proof {
                    lemma_tasks_ok_grown(old(self).heap, self.heap, self.tasks@);
                }
                self.go(Control::Completed)
            },
            Stmt::Return { keyword: _, value } => match value {
                Some(result) => self.push(
                    Task::Return,
                    Control::Evaluate { expression: result, environment },
                ),
                None => self.go(Control::Returning(LoxValue::Nil)),
            },
            Stmt::Class { name, superclass, methods } => match superclass {
                Some(clause) => {
                    self.heap.define(environment, name.lexeme.clone(), LoxValue::Nil);
                    proof {
                        lemma_tasks_ok_grown(old(self).heap, self.heap, self.tasks@);
                    }
                    self.push(
                        Task::Superclass { name, clause, methods, environment },
                        Control::Evaluate { expression: clause, environment },
                    )
                },
                None => self.make_class(name, None, methods, environment),
            },
        }
    }

    /// Whether every member of a class body is a function.
    fn only_functions(methods: &Vec<Stmt>) -> (r: bool)
        ensures
            r == all_functions(methods@),
    {
        let mut i: usize = 0;
        while i < methods.len()
            invariant
                i <= methods.len(),
                forall|j: int| 0 <= j < i ==> (#[trigger] methods@[j]) is Function,
            decreases methods.len() - i,
        {
            match &methods[i] {
                Stmt::Function { .. } => {},
                _ => {
                    return false;
                },
            }
            i += 1;
        }
        true
    }

    /// Makes the class of a class statement and completes the statement.
    fn make_class(
        &mut self,
        name: &'a Token,
        superclass: Option<usize>,
        methods: &'a Vec<Stmt>,
        environment: usize,
    ) -> (action: Action)
        requires
            old(self).heap.well_formed(),
            tasks_ok(old(self).heap, old(self).tasks@),
            environment < old(self).heap.frames@.len(),
            match superclass {
                Some(s) => old(self).heap.is_class(s),
                None => true,
            },
        ensures
            final(self).well_formed(),
            class_made(
                old(self).heap(),
                old(self).tasks(),
                name,
                superclass,
                methods,
                environment,
                *final(self),
                action,
            ),
    {
        if !Self::only_functions(methods) {
            return self.fault(Fault::ClassBodyNotMethods);
        }
        let ghost base = self.heap.callables@.len();
        self.heap.define(environment, name.lexeme.clone(), LoxValue::Nil);
        let closure = match superclass {
            Some(s) => {
                let frame = self.heap.new_frame(Some(environment));
                self.heap.define(frame, String::from_str("super"), LoxValue::Callable(s));
                frame
            },
            None => environment,
        };
        let ghost framed = self.heap;
        let mut table: Table<usize> = Table::new();
        let mut i: usize = 0;
        while i < methods.len()
            invariant
                i <= methods.len(),
                all_functions(methods@),
                self.tasks@ == old(self).tasks@,
                self.heap.well_formed(),
                self.heap.frames == framed.frames,
                self.heap.instances == framed.instances,
                closure < self.heap.frames@.len(),
                base == framed.callables@.len(),
                self.heap.callables@.len() == base + i,
                self.heap.callables@.subrange(0, base as int) == framed.callables@,
                forall|j: int|
                    0 <= j < i ==> #[trigger] self.heap.callables@[base + j] == declared_function(
                        &methods@[j],
                        closure,
                        true,
                    ),
                table@ == method_table(methods@, i as nat, base),
                forall|key: Seq<char>| #[trigger]
                    table@.contains_key(key) ==> base <= table@[key] < base + i,
            decreases methods.len() - i,
        {
            match &methods[i] {
                Stmt::Function { name: method_name, params, body } => {
                    let initializer = crate::text::reads(&method_name.lexeme, "init");
                    let ghost before = self.heap.callables@;
                    let id = self.heap.new_callable(
                        LoxCallable::new_function(
                            FunctionStmt { name: method_name, params, body },
                            closure,
                            initializer,
                        ),
                    );
                    table.insert(method_name.lexeme.clone(), id);
                    proof {
                        assert(self.heap.callables@.subrange(0, base as int) =~= before.subrange(
                            0,
                            base as int,
                        ));
                        assert forall|j: int| 0 <= j < i + 1 implies #[trigger] self.heap.callables@[base
                            + j] == declared_function(&methods@[j], closure, true) by {
                            if j < i {
                                assert(self.heap.callables@[base + j] == before[base + j]);
                            }
                        }
                    }
                },
                _ => {
                    assert(false);
                },
            }
            i += 1;
        }
        let ghost filled = self.heap;
        proof {
            assert forall|key: Seq<char>| #[trigger] table@.contains_key(key) implies table@[key]
                < filled.callables@.len() && filled.callables@[table@[key] as int] is Function by {
                let j = table@[key] - base;
                assert(filled.callables@[base + j] == declared_function(&methods@[j], closure, true));
            }
            match superclass {
                Some(s) => {
                    assert(filled.callables@[s as int] == framed.callables@.subrange(
                        0,
                        base as int,
                    )[s as int]);
                },
                None => {},
            }
        }
        let class = self.heap.new_callable(
            LoxCallable::Class { class: LoxClass::new(name.lexeme.clone(), superclass, table) },
        );
        self.heap.define(environment, name.lexeme.clone(), LoxValue::Callable(class));
        proof {
            lemma_tasks_ok_grown(old(self).heap, self.heap, self.tasks@);
            let h = old(self).heap;
            let p = self.heap;
            assert(p.callables@.subrange(0, base as int) =~= h.callables@);
            assert forall|j: int| 0 <= j < methods@.len() implies #[trigger] p.callables@[base + j]
                == declared_function(&methods@[j], closure, true) by {
                assert(filled.callables@[base + j] == declared_function(
                    &methods@[j],
                    closure,
                    true,
                ));
            }
            match superclass {
                Some(s) => {
                    assert(p.frames@.drop_last().len() == h.frames@.len());
                    assert(p.frames@.drop_last()[environment as int].bindings() =~= h.frames@[environment as int].bindings().insert(
                        name.lexeme@,
                        LoxValue::Callable(class),
                    ));
                },
                None => {
                    assert(p.frames@[environment as int].bindings() =~= h.frames@[environment as int].bindings().insert(
                        name.lexeme@,
                        LoxValue::Callable(class),
                    ));
                },
            }
        }
        self.go(Control::Completed)
    }
}

/// The name of the class of an instance.
pub open spec fn class_name_of(h: Heap, instance: usize) -> Seq<char> {
    match h.callables@[h.instances@[instance as int].klass as int] {
        LoxCallable::Class { class } => class.name@,
        _ => Seq::empty(),
    }
}

/// How a value that is no number reads when it is printed or joined to a
/// string. (How a number reads is the driver's business.)
pub open spec fn value_text(h: Heap, value: LoxValue) -> Seq<char> {
    match value {
        LoxValue::Nil => "nil"@,
        LoxValue::Boolean(b) => if b {
            "true"@
        } else {
            "false"@
        },
        LoxValue::String(text) => text@,
        LoxValue::Number(_) => Seq::empty(),
        LoxValue::Callable(c) => callable_text(h.callables@[c as int]),
        LoxValue::Instance(k) => instance_text(class_name_of(h, k)),
    }
}

/// What has a text by which it is printed.
pub trait Stringifyable {
    /// Whether the text can be told from the heap alone.
    spec fn stringifiable(&self, heap: &Heap) -> bool;

    /// The text.
    spec fn text(&self, heap: &Heap) -> Seq<char>;

    /// Renders the text.
    fn stringify(&self, heap: &Heap) -> (r: String)
        requires
            heap.well_formed(),
            self.stringifiable(heap),
        ensures
            r@ == self.text(heap),
    ;
}

impl<'a> Stringifyable for LoxCallable<'a> {
    open spec fn stringifiable(&self, heap: &Heap) -> bool {
        true
    }

    open spec fn text(&self, heap: &Heap) -> Seq<char> {
        callable_text(*self)
    }

    fn stringify(&self, heap: &Heap) -> (r: String) {
        LoxCallable::stringify(self)
    }
}

impl Stringifyable for LoxInstance {
    open spec fn stringifiable(&self, heap: &Heap) -> bool {
        heap.is_class(self.klass)
    }

    open spec fn text(&self, heap: &Heap) -> Seq<char> {
        instance_text(
            match heap.callables@[self.klass as int] {
                LoxCallable::Class { class } => class.name@,
                _ => Seq::empty(),
            },
        )
    }

    fn stringify(&self, heap: &Heap) -> (r: String) {
        match &heap.callables[self.klass] {
            LoxCallable::Class { class } => crate::text::join(class.name.as_str(), " instance"),
            _ => String::from_str(" instance"),
        }
    }
}

impl Stringifyable for LoxValue {
    open spec fn stringifiable(&self, heap: &Heap) -> bool {
        !(*self is Number) && heap.value_ok(*self)
    }

    open spec fn text(&self, heap: &Heap) -> Seq<char> {
        value_text(*heap, *self)
    }

    fn stringify(&self, heap: &Heap) -> (r: String) {
        match self {
            LoxValue::Nil => String::from_str("nil"),
            LoxValue::Boolean(b) => if *b {
                String::from_str("true")
            } else {
                String::from_str("false")
            },
            LoxValue::String(text) => text.clone(),
            LoxValue::Number(_) => String::from_str(""),
            LoxValue::Callable(c) => LoxCallable::stringify(&heap.callables[*c]),
            LoxValue::Instance(k) => {
                assert(heap.instance_ok(*k as int));
                heap.instances[*k].stringify(heap)
            },
        }
    }
}

/// A value is printed: a number is handed to the driver to be rendered
/// first, anything else is printed as it reads.
pub open spec fn printed<'a>(
    h: Heap<'a>,
    t: Seq<Task<'a>>,
    value: LoxValue,
    post: Interpreter<'a>,
    action: Action,
) -> bool {
    match value {
        LoxValue::Number(bits) => {
            &&& post.has(h, t.push(Task::PrintText), Control::AwaitText)
            &&& action == Action::Format(bits)
        },
        _ => {
            &&& post.has(h, t, Control::Completed)
            &&& action matches Action::Print(text)
            &&& text@ == value_text(h, value)
        },
    }
}

/// The driver is asked to compute on two numbers.
pub open spec fn asked<'a>(
    h: Heap<'a>,
    t: Seq<Task<'a>>,
    operator: ArithmeticOperator,
    left: u64,
    right: u64,
    post: Interpreter<'a>,
    action: Action,
) -> bool {
    &&& post.has(h, t, Control::AwaitNumber)
    &&& action == (Action::Arithmetic { operator, left, right })
}

/// The machine goes on with a string of the given text as the value.
pub open spec fn went_with_text<'a>(
    h: Heap<'a>,
    t: Seq<Task<'a>>,
    text: Seq<char>,
    post: Interpreter<'a>,
    action: Action,
) -> bool {
    &&& action is Continue
    &&& post.heap() == h
    &&& post.tasks() == t
    &&& post.control() matches Control::Value(LoxValue::String(s))
    &&& s@ == text
}

/// A unary operator is applied: `-` negates a number and is an error on
/// anything else, `!` gives whether the value is falsy.
pub open spec fn unary_applied<'a>(
    h: Heap<'a>,
    t: Seq<Task<'a>>,
    operator: Token,
    value: LoxValue,
    post: Interpreter<'a>,
    action: Action,
) -> bool {
    match operator.token_type {
        TokenType::Minus => match value {
            LoxValue::Number(bits) => post.went(
                action,
                h,
                t,
                Control::Value(LoxValue::Number(number::negated(bits))),
            ),
            _ => post.failed(action, h, operator, "Cannot negate non numeric value"@),
        },
        TokenType::Bang => post.went(
            action,
            h,
            t,
            Control::Value(LoxValue::Boolean(!value.truthy())),
        ),
        _ => post.faulted(action, h, Fault::InvalidUnaryOperator),
    }
}

/// An arithmetic operator is applied: both operands must be numbers, and a
/// division by zero is an error of its own.
pub open spec fn arithmetic_applied<'a>(
    h: Heap<'a>,
    t: Seq<Task<'a>>,
    operator: Token,
    kind: ArithmeticOperator,
    left: LoxValue,
    right: LoxValue,
    post: Interpreter<'a>,
    action: Action,
) -> bool {
    match (left, right) {
        (LoxValue::Number(a), LoxValue::Number(b)) => if kind is Divide && number::is_zero(b) {
            post.failed(action, h, operator, "Cannot divide by 0."@)
        } else {
            asked(h, t, kind, a, b, post, action)
        },
        _ => post.failed(action, h, operator, "Operands must be numbers."@),
    }
}

/// `+` is applied: two numbers are added; if either operand is a string, the
/// other one is joined to it as it reads; anything else is an error.
pub open spec fn plus_applied<'a>(
    h: Heap<'a>,
    t: Seq<Task<'a>>,
    operator: Token,
    left: LoxValue,
    right: LoxValue,
    post: Interpreter<'a>,
    action: Action,
) -> bool {
    match (left, right) {
        (LoxValue::Number(a), LoxValue::Number(b)) => asked(
            h,
            t,
            ArithmeticOperator::Add,
            a,
            b,
            post,
            action,
        ),
        (LoxValue::String(l), LoxValue::Number(b)) => {
            &&& post.has(h, t.push(Task::JoinAfter { left: l }), Control::AwaitText)
            &&& action == Action::Format(b)
        },
        (LoxValue::String(l), _) => went_with_text(h, t, l@ + value_text(h, right), post, action),
        (LoxValue::Number(a), LoxValue::String(r)) => {
            &&& post.has(h, t.push(Task::JoinBefore { right: r }), Control::AwaitText)
            &&& action == Action::Format(a)
        },
        (_, LoxValue::String(r)) => went_with_text(h, t, value_text(h, left) + r@, post, action),
        _ => post.failed(action, h, operator, "Operands must be two numbers or two strings."@),
    }
}

/// The result of a comparison of two numbers.
pub open spec fn comparison(kind: TokenType, a: u64, b: u64) -> bool {
    match kind {
        TokenType::Greater => number::number_less(b, a),
        TokenType::GreaterEqual => number::number_less_equal(b, a),
        TokenType::Less => number::number_less(a, b),
        _ => number::number_less_equal(a, b),
    }
}

/// A comparison is applied: both operands must be numbers.
pub open spec fn comparison_applied<'a>(
    h: Heap<'a>,
    t: Seq<Task<'a>>,
    operator: Token,
    left: LoxValue,
    right: LoxValue,
    post: Interpreter<'a>,
    action: Action,
) -> bool {
    match (left, right) {
        (LoxValue::Number(a), LoxValue::Number(b)) => post.went(
            action,
            h,
            t,
            Control::Value(LoxValue::Boolean(comparison(operator.token_type, a, b))),
        ),
        _ => post.failed(action, h, operator, "Operands must be numbers."@),
    }
}

/// A binary operator is applied to its two operands.
pub open spec fn binary_applied<'a>(
    h: Heap<'a>,
    t: Seq<Task<'a>>,
    operator: Token,
    left: LoxValue,
    right: LoxValue,
    post: Interpreter<'a>,
    action: Action,
) -> bool {
    match operator.token_type {
        TokenType::Minus => arithmetic_applied(
            h,
            t,
            operator,
            ArithmeticOperator::Subtract,
            left,
            right,
            post,
            action,
        ),
        TokenType::Slash => arithmetic_applied(
            h,
            t,
            operator,
            ArithmeticOperator::Divide,
            left,
            right,
            post,
            action,
        ),
        TokenType::Star => arithmetic_applied(
            h,
            t,
            operator,
            ArithmeticOperator::Multiply,
            left,
            right,
            post,
            action,
        ),
        TokenType::Plus => plus_applied(h, t, operator, left, right, post, action),
        TokenType::Greater => comparison_applied(h, t, operator, left, right, post, action),
        TokenType::GreaterEqual => comparison_applied(h, t, operator, left, right, post, action),
        TokenType::Less => comparison_applied(h, t, operator, left, right, post, action),
        TokenType::LessEqual => comparison_applied(h, t, operator, left, right, post, action),
        TokenType::BangEqual => post.went(
            action,
            h,
            t,
            Control::Value(LoxValue::Boolean(!left.equal_to(right))),
        ),
        TokenType::EqualEqual => post.went(
            action,
            h,
            t,
            Control::Value(LoxValue::Boolean(left.equal_to(right))),
        ),
        _ => post.failed(action, h, operator, "Invalid binary operator."@),
    }
}

impl<'a> Interpreter<'a> {
    /// Prints a value.
    fn print(&mut self, value: LoxValue) -> (action: Action)
        requires
            old(self).heap.well_formed(),
            old(self).heap.frames@.len() > 0,
            tasks_ok(old(self).heap, old(self).tasks@),
            old(self).heap.value_ok(value),
        ensures
            final(self).well_formed(),
            printed(old(self).heap(), old(self).tasks(), value, *final(self), action),
    {
        match value {
            LoxValue::Number(bits) => {
                self.tasks.push(Task::PrintText);
                self.control = Control::AwaitText;
                Action::Format(bits)
            },
            _ => {
                let text = value.stringify(&self.heap);
                self.control = Control::Completed;
                Action::Print(text)
            },
        }
    }

    /// Asks the driver to compute on two numbers.
    fn ask(&mut self, operator: ArithmeticOperator, left: u64, right: u64) -> (action: Action)
        requires
            old(self).heap.well_formed(),
            old(self).heap.frames@.len() > 0,
            tasks_ok(old(self).heap, old(self).tasks@),
        ensures
            final(self).well_formed(),
            asked(old(self).heap(), old(self).tasks(), operator, left, right, *final(self), action),
    {
        self.control = Control::AwaitNumber;
        Action::Arithmetic { operator, left, right }
    }

    /// Applies a unary operator.
    fn apply_unary(&mut self, operator: &Token, value: LoxValue) -> (action: Action)
        requires
            old(self).heap.well_formed(),
            old(self).heap.frames@.len() > 0,
            tasks_ok(old(self).heap, old(self).tasks@),
        ensures
            final(self).well_formed(),
            unary_applied(old(self).heap(), old(self).tasks(), *operator, value, *final(self), action),
    {
        match operator.token_type {
            TokenType::Minus => match value {
                LoxValue::Number(bits) => self.go(
                    Control::Value(LoxValue::Number(number::negate(bits))),
                ),
                _ => self.fail_at(operator, "Cannot negate non numeric value"),
            },
            TokenType::Bang => self.go(Control::Value(LoxValue::Boolean(!value.is_truthy()))),
            _ => self.fault(Fault::InvalidUnaryOperator),
        }
    }

    /// Applies an arithmetic operator.
    fn apply_arithmetic(
        &mut self,
        operator: &Token,
        kind: ArithmeticOperator,
        left: LoxValue,
        right: LoxValue,
    ) -> (action: Action)
        requires
            old(self).heap.well_formed(),
            old(self).heap.frames@.len() > 0,
            tasks_ok(old(self).heap, old(self).tasks@),
        ensures
            final(self).well_formed(),
            arithmetic_applied(
                old(self).heap(),
                old(self).tasks(),
                *operator,
                kind,
                left,
                right,
                *final(self),
                action,
            ),
    {
        match (left, right) {
            (LoxValue::Number(a), LoxValue::Number(b)) => {
                let divides = match kind {
                    ArithmeticOperator::Divide => true,
                    _ => false,
                };
                if divides && number::zero(b) {
                    self.fail_at(operator, "Cannot divide by 0.")
                } else {
                    self.ask(kind, a, b)
                }
            },
            _ => self.fail_at(operator, "Operands must be numbers."),
        }
    }

    /// Goes on with a string as the value.
    fn go_with_text(&mut self, text: String) -> (action: Action)
        requires
            old(self).heap.well_formed(),
            old(self).heap.frames@.len() > 0,
            tasks_ok(old(self).heap, old(self).tasks@),
        ensures
            final(self).well_formed(),
            went_with_text(old(self).heap(), old(self).tasks(), text@, *final(self), action),
    {
        self.go(Control::Value(LoxValue::String(text)))
    }

    /// Waits for the text of a number, with a task that takes it.
    fn format(&mut self, task: Task<'a>, bits: u64) -> (action: Action)
        requires
            old(self).heap.well_formed(),
            old(self).heap.frames@.len() > 0,
            tasks_ok(old(self).heap, old(self).tasks@),
            task is JoinAfter || task is JoinBefore,
        ensures
            final(self).well_formed(),
            final(self).has(old(self).heap(), old(self).tasks().push(task), Control::AwaitText),
            action == Action::Format(bits),
    {
        self.tasks.push(task);
        self.control = Control::AwaitText;
        Action::Format(bits)
    }

    /// Applies `+`.
    fn apply_plus(&mut self, operator: &Token, left: LoxValue, right: LoxValue) -> (action: Action)
        requires
            old(self).heap.well_formed(),
            old(self).heap.frames@.len() > 0,
            tasks_ok(old(self).heap, old(self).tasks@),
            old(self).heap.value_ok(left),
            old(self).heap.value_ok(right),
        ensures
            final(self).well_formed(),
            plus_applied(
                old(self).heap(),
                old(self).tasks(),
                *operator,
                left,
                right,
                *final(self),
                action,
            ),
    {
        match (left, right) {
            (LoxValue::Number(a), LoxValue::Number(b)) => self.ask(ArithmeticOperator::Add, a, b),
            (LoxValue::String(l), LoxValue::Number(b)) => self.format(
                Task::JoinAfter { left: l },
                b,
            ),
            (LoxValue::String(l), other) => {
                let text = other.stringify(&self.heap);
                self.go_with_text(crate::text::join(l.as_str(), text.as_str()))
            },
            (LoxValue::Number(a), LoxValue::String(r)) => self.format(
                Task::JoinBefore { right: r },
                a,
            ),
            (other, LoxValue::String(r)) => {
                let text = other.stringify(&self.heap);
                self.go_with_text(crate::text::join(text.as_str(), r.as_str()))
            },
            _ => self.fail_at(operator, "Operands must be two numbers or two strings."),
        }
    }

    /// Applies a comparison.
    fn apply_comparison(&mut self, operator: &Token, left: LoxValue, right: LoxValue) -> (action:
        Action)
        requires
            old(self).heap.well_formed(),
            old(self).heap.frames@.len() > 0,
            tasks_ok(old(self).heap, old(self).tasks@),
            operator.token_type is Greater || operator.token_type is GreaterEqual
                || operator.token_type is Less || operator.token_type is LessEqual,
        ensures
            final(self).well_formed(),
            comparison_applied(
                old(self).heap(),
                old(self).tasks(),
                *operator,
                left,
                right,
                *final(self),
                action,
            ),
    {
        match (left, right) {
            (LoxValue::Number(a), LoxValue::Number(b)) => {
                let result = match operator.token_type {
                    TokenType::Greater => number::less(b, a),
                    TokenType::GreaterEqual => number::less_equal(b, a),
                    TokenType::Less => number::less(a, b),
                    _ => number::less_equal(a, b),
                };
                self.go(Control::Value(LoxValue::Boolean(result)))
            },
            _ => self.fail_at(operator, "Operands must be numbers."),
        }
    }

    /// Applies a binary operator.
    fn apply_binary(&mut self, operator: &Token, left: LoxValue, right: LoxValue) -> (action: Action)
        requires
            old(self).heap.well_formed(),
            old(self).heap.frames@.len() > 0,
            tasks_ok(old(self).heap, old(self).tasks@),
            old(self).heap.value_ok(left),
            old(self).heap.value_ok(right),
        ensures
            final(self).well_formed(),
            binary_applied(
                old(self).heap(),
                old(self).tasks(),
                *operator,
                left,
                right,
                *final(self),
                action,
            ),
    {
        match operator.token_type {
            TokenType::Minus => self.apply_arithmetic(
                operator,
                ArithmeticOperator::Subtract,
                left,
                right,
            ),
            TokenType::Slash => self.apply_arithmetic(
                operator,
                ArithmeticOperator::Divide,
                left,
                right,
            ),
            TokenType::Star => self.apply_arithmetic(
                operator,
                ArithmeticOperator::Multiply,
                left,
                right,
            ),
            TokenType::Plus => self.apply_plus(operator, left, right),
            TokenType::Greater => self.apply_comparison(operator, left, right),
            TokenType::GreaterEqual => self.apply_comparison(operator, left, right),
            TokenType::Less => self.apply_comparison(operator, left, right),
            TokenType::LessEqual => self.apply_comparison(operator, left, right),
            TokenType::BangEqual => {
                let result = left.ne(&right);
                self.go(Control::Value(LoxValue::Boolean(result)))
            },
            TokenType::EqualEqual => {
                let result = left.eq(&right);
                self.go(Control::Value(LoxValue::Boolean(result)))
            },
            _ => self.fail_at(operator, "Invalid binary operator."),
        }
    }
}

/// The message for a call with the wrong number of arguments.
pub open spec fn arity_mismatch(expected: nat, got: nat) -> Seq<char> {
    "Expected "@ + decimal_digits(expected) + " arguments but got "@ + decimal_digits(got) + "."@
}

/// The bindings of the first `upto` parameters to their arguments. Of two
/// parameters with one name, the later one counts.
pub open spec fn parameters(params: Seq<Token>, arguments: Seq<LoxValue>, upto: nat) -> Map<
    Seq<char>,
    LoxValue,
>
    decreases upto,
{
    if upto == 0 || upto > params.len() || upto > arguments.len() {
        Map::empty()
    } else {
        parameters(params, arguments, (upto - 1) as nat).insert(
            params[upto - 1].lexeme@,
            arguments[upto - 1],
        )
    }
}

/// A function is entered: a new frame inside the function's closure binds
/// the parameters to the arguments, the boundary of the call is put on the
/// stack, and the machine goes on with the first statement of the body in
/// the new frame.
pub open spec fn function_entered<'a>(
    h: Heap<'a>,
    t: Seq<Task<'a>>,
    declaration: FunctionStmt<'a>,
    closure: usize,
    is_initializer: bool,
    arguments: Seq<LoxValue>,
    line: usize,
    post: Interpreter<'a>,
    action: Action,
) -> bool {
    &&& action is Continue
    &&& frame_pushed(
        h.frames@,
        post.heap().frames@,
        Some(closure),
        parameters(declaration.params@, arguments, arguments.len()),
    )
    &&& post.heap().callables == h.callables
    &&& post.heap().instances == h.instances
    &&& sequenced(
        t.push(Task::Call { is_initializer, closure, line }),
        declaration.body,
        0,
        h.frames@.len() as usize,
        post,
    )
}

/// A class is called: a new instance of it is made. Without an initializer
/// the instance is the value at once. With one, the initializer is bound to
/// the instance and entered, with a task under the boundary of its call that
/// will hand out the instance whatever the initializer comes to.
pub open spec fn constructed<'a>(
    h: Heap<'a>,
    t: Seq<Task<'a>>,
    class: usize,
    arguments: Seq<LoxValue>,
    line: usize,
    post: Interpreter<'a>,
    action: Action,
) -> bool {
    let instance = h.instances@.len() as usize;
    &&& action is Continue
    &&& post.heap().instances@.len() == h.instances@.len() + 1
    &&& post.heap().instances@.drop_last() == h.instances@
    &&& post.heap().instances@.last().klass == class
    &&& post.heap().instances@.last().fields@ == Map::<Seq<char>, LoxValue>::empty()
    &&& match method_of(h.callables@, class as int, "init"@) {
        None => {
            &&& post.heap().frames == h.frames
            &&& post.heap().callables == h.callables
            &&& post.tasks() == t
            &&& post.control() == Control::Value(LoxValue::Instance(instance))
        },
        Some(initializer) => {
            let binding = h.frames@.len() as usize;
            &&& h.callables@[initializer as int] matches LoxCallable::Function {
                declaration,
                closure,
                is_initializer,
            }
            &&& post.heap().frames@.len() == h.frames@.len() + 2
            &&& post.heap().frames@.subrange(0, h.frames@.len() as int) == h.frames@
            &&& post.heap().frames@[binding as int].parent() == Some(closure)
            &&& post.heap().frames@[binding as int].bindings() == Map::<
                Seq<char>,
                LoxValue,
            >::empty().insert(this_name(), LoxValue::Instance(instance))
            &&& post.heap().frames@.last().parent() == Some(binding)
            &&& post.heap().frames@.last().bindings() == parameters(
                declaration.params@,
                arguments,
                arguments.len(),
            )
            &&& post.heap().callables@ == h.callables@.push(
                LoxCallable::Function { declaration, closure: binding, is_initializer },
            )
            &&& sequenced(
                t.push(Task::Construct { instance }).push(
                    Task::Call { is_initializer, closure: binding, line },
                ),
                declaration.body,
                0,
                (binding + 1) as usize,
                post,
            )
        },
    }
}

/// A callable is called with arguments. A number of arguments other than
/// the callable's arity is an error, and then nothing has been bound and
/// nothing has run: the heap is as it was.
pub open spec fn called<'a>(
    h: Heap<'a>,
    t: Seq<Task<'a>>,
    callable: usize,
    arguments: Seq<LoxValue>,
    call_token: Token,
    post: Interpreter<'a>,
    action: Action,
) -> bool {
    if arity_of(h.callables@, callable as int) != arguments.len() {
        post.failed(
            action,
            h,
            call_token,
            arity_mismatch(arity_of(h.callables@, callable as int), arguments.len()),
        )
    } else {
        match h.callables@[callable as int] {
            LoxCallable::ClockFunction => {
                &&& post.has(h, t, Control::AwaitNumber)
                &&& action is Clock
            },
            LoxCallable::Function { declaration, closure, is_initializer } => function_entered(
                h,
                t,
                declaration,
                closure,
                is_initializer,
                arguments,
                call_token.line,
                post,
                action,
            ),
            LoxCallable::Class { .. } => constructed(
                h,
                t,
                callable,
                arguments,
                call_token.line,
                post,
                action,
            ),
        }
    }
}

/// A value is called with arguments: only a callable can be called.
pub open spec fn invoked<'a>(
    h: Heap<'a>,
    t: Seq<Task<'a>>,
    callee: LoxValue,
    arguments: Seq<LoxValue>,
    call_token: Token,
    post: Interpreter<'a>,
    action: Action,
) -> bool {
    match callee {
        LoxValue::Callable(callable) => called(h, t, callable, arguments, call_token, post, action),
        _ => post.failed(action, h, call_token, "Can only call functions and classes."@),
    }
}

impl<'a> Interpreter<'a> {
    /// Enters a function.
    fn enter(
        &mut self,
        declaration: FunctionStmt<'a>,
        closure: usize,
        is_initializer: bool,
        arguments: Vec<LoxValue>,
        line: usize,
    ) -> (action: Action)
        requires
            old(self).heap.well_formed(),
            tasks_ok(old(self).heap, old(self).tasks@),
            closure < old(self).heap.frames@.len(),
            arguments@.len() == declaration.params@.len(),
            forall|i: int| 0 <= i < arguments@.len() ==> old(self).heap.value_ok(#[trigger] arguments@[i]),
        ensures
            final(self).well_formed(),
            function_entered(
                old(self).heap(),
                old(self).tasks(),
                declaration,
                closure,
                is_initializer,
                arguments@,
                line,
                *final(self),
                action,
            ),
    {
        let frame = self.heap.new_frame(Some(closure));
        let mut i: usize = 0;
        while i < arguments.len()
            invariant
                i <= arguments.len(),
                arguments@.len() == declaration.params@.len(),
                self.tasks@ == old(self).tasks@,
                self.heap.well_formed(),
                frame == old(self).heap.frames@.len(),
                self.heap.frames@.len() == frame + 1,
                self.heap.frames@.drop_last() == old(self).heap.frames@,
                self.heap.frames@.last().parent() == Some(closure),
                self.heap.frames@.last().bindings() == parameters(
                    declaration.params@,
                    arguments@,
                    i as nat,
                ),
                self.heap.callables == old(self).heap.callables,
                self.heap.instances == old(self).heap.instances,
                forall|j: int| 0 <= j < arguments@.len() ==> self.heap.value_ok(#[trigger] arguments@[j]),
            decreases arguments.len() - i,
        {
            let ghost before = self.heap;
            self.heap.define(frame, declaration.params[i].lexeme.clone(), arguments[i].clone());
            proof {
                assert(self.heap.frames@.drop_last() =~= before.frames@.drop_last());
            }
            i += 1;
        }
        self.tasks.push(Task::Call { is_initializer, closure, line });
        proof {
            lemma_tasks_ok_grown(old(self).heap, self.heap, old(self).tasks@);
            assert(tasks_ok(self.heap, self.tasks@)) by {
                assert forall|k: int| 0 <= k < self.tasks@.len() implies task_ok(
                    self.heap,
                    #[trigger] self.tasks@[k],
                ) by {
                    if k < old(self).tasks@.len() {
                        assert(task_ok(self.heap, old(self).tasks@[k]));
                    }
                }
            }
        }
        self.sequence(declaration.body, 0, frame)
    }

    /// Calls a callable with arguments.
    fn call_callable(&mut self, callable: usize, arguments: Vec<LoxValue>, call_token: &Token) -> (action:
        Action)
        requires
            old(self).heap.well_formed(),
            old(self).heap.frames@.len() > 0,
            tasks_ok(old(self).heap, old(self).tasks@),
            callable < old(self).heap.callables@.len(),
            forall|i: int| 0 <= i < arguments@.len() ==> old(self).heap.value_ok(#[trigger] arguments@[i]),
        ensures
            final(self).well_formed(),
            called(
                old(self).heap(),
                old(self).tasks(),
                callable,
                arguments@,
                *call_token,
                *final(self),
                action,
            ),
    {
        let arity = LoxCallable::arity(&self.heap, callable);
        if arity != arguments.len() {
            let mut message = String::from_str("Expected ");
            let expected = crate::text::decimal(arity);
            message.append(expected.as_str());
            message.append(" arguments but got ");
            let got = crate::text::decimal(arguments.len());
            message.append(got.as_str());
            message.append(".");
            return self.fail(RuntimeError::new(call_token.clone(), message));
        }
        assert(self.heap.callable_ok(callable as int));
        let entry = match &self.heap.callables[callable] {
            LoxCallable::ClockFunction => None,
            LoxCallable::Function { declaration, closure, is_initializer } => Some(
                (*declaration, *closure, *is_initializer),
            ),
            LoxCallable::Class { .. } => {
                return self.construct(callable, arguments, call_token.line);
            },
        };
        match entry {
            None => {
                self.control = Control::AwaitNumber;
                Action::Clock
            },
            Some((declaration, closure, is_initializer)) => self.enter(
                declaration,
                closure,
                is_initializer,
                arguments,
                call_token.line,
            ),
        }
    }

    /// Calls a class: makes an instance and runs its initializer.
    fn construct(&mut self, class: usize, arguments: Vec<LoxValue>, line: usize) -> (action: Action)
        requires
            old(self).heap.well_formed(),
            old(self).heap.frames@.len() > 0,
            tasks_ok(old(self).heap, old(self).tasks@),
            old(self).heap.is_class(class),
            arity_of(old(self).heap.callables@, class as int) == arguments@.len(),
            forall|i: int| 0 <= i < arguments@.len() ==> old(self).heap.value_ok(#[trigger] arguments@[i]),
        ensures
            final(self).well_formed(),
            constructed(
                old(self).heap(),
                old(self).tasks(),
                class,
                arguments@,
                line,
                *final(self),
                action,
            ),
    {
        let name = String::from_str("init");
        let found = LoxClass::find_method(&self.heap, class, &name);
        let instance = self.heap.new_instance(class);
        proof {
            lemma_tasks_ok_grown(old(self).heap, self.heap, self.tasks@);
        }
        match found {
            Some(LoxValue::Callable(initializer)) => {
                let ghost made = self.heap;
                let bound_value = LoxValue::Callable(initializer).bind(instance, &mut self.heap);
                let ghost bound_heap = self.heap;
                proof {
                    assert(made.callables@ == old(self).heap.callables@);
                    assert(method_of(old(self).heap.callables@, class as int, "init"@) == Some(
                        initializer,
                    ));
                    assert(bound(made, bound_heap, initializer, instance, bound_value));
                    assert(bound_heap.callables@.last() is Function);
                    assert(bound_heap.callable_ok(made.callables@.len() as int));
                    assert(made.callables@.len() == made.callables.len());
                    assert(made.frames@.len() == made.frames.len());
                }
                let entry = match bound_value {
                    LoxValue::Callable(b) => match &self.heap.callables[b] {
                        LoxCallable::Function { declaration, closure, is_initializer } => (
                            *declaration,
                            *closure,
                            *is_initializer,
                        ),
                        _ => {
                            assert(false);
                            return Action::Continue;
                        },
                    },
                    _ => {
                        assert(false);
                        return Action::Continue;
                    },
                };
                self.tasks.push(Task::Construct { instance });
                proof {
                    lemma_tasks_ok_grown(old(self).heap, self.heap, old(self).tasks@);
                    assert forall|k: int| 0 <= k < self.tasks@.len() implies task_ok(
                        self.heap,
                        #[trigger] self.tasks@[k],
                    ) by {
                        if k < old(self).tasks@.len() {
                            assert(task_ok(self.heap, old(self).tasks@[k]));
                        }
                    }
                }
                let action = self.enter(entry.0, entry.1, entry.2, arguments, line);
                proof {
                    let h = old(self).heap;
                    let p = self.heap;
                    assert(bound_heap.frames@.drop_last() == made.frames@);
                    assert(p.frames@.drop_last() == bound_heap.frames@);
                    assert(p.frames@.subrange(0, h.frames@.len() as int) =~= h.frames@);
                    assert(p.frames@[h.frames@.len() as int] == bound_heap.frames@.last());
                }
                action
            },
            _ => self.go(Control::Value(LoxValue::Instance(instance))),
        }
    }

    /// Calls a value with arguments.
    fn invoke(&mut self, callee: LoxValue, arguments: Vec<LoxValue>, call_token: &Token) -> (action:
        Action)
        requires
            old(self).heap.well_formed(),
            old(self).heap.frames@.len() > 0,
            tasks_ok(old(self).heap, old(self).tasks@),
            old(self).heap.value_ok(callee),
            forall|i: int| 0 <= i < arguments@.len() ==> old(self).heap.value_ok(#[trigger] arguments@[i]),
        ensures
            final(self).well_formed(),
            invoked(
                old(self).heap(),
                old(self).tasks(),
                callee,
                arguments@,
                *call_token,
                *final(self),
                action,
            ),
    {
        match callee {
            LoxValue::Callable(callable) => self.call_callable(callable, arguments, call_token),
            _ => self.fail_at(call_token, "Can only call functions and classes."),
        }
    }
}

/// A value is assigned to a variable: the binding in the frame that the
/// scope distance leads to is overwritten, and the value of the assignment is
/// the value assigned. A name that is not bound there is an undefined
/// variable.
pub open spec fn assigned<'a>(
    h: Heap<'a>,
    t: Seq<Task<'a>>,
    name: Token,
    depth: Option<usize>,
    environment: usize,
    value: LoxValue,
    post: Interpreter<'a>,
    action: Action,
) -> bool {
    match target(h.frames@, environment as int, depth) {
        None => post.faulted(action, h, Fault::ScopeDistance),
        Some(at) => if h.frames@[at].bindings().contains_key(name.lexeme@) {
            &&& action is Continue
            &&& crate::environment::rebound(
                h.frames@,
                post.heap().frames@,
                at,
                name.lexeme@,
                value,
            )
            &&& post.heap().callables == h.callables
            &&& post.heap().instances == h.instances
            &&& post.tasks() == t
            &&& post.control() == Control::Value(value)
        } else {
            post.failed(action, h, name, undefined_variable(name.lexeme@))
        },
    }
}

/// A property of a value is read: only an instance has properties; a field
/// comes before a method of the same name; a method is bound to the
/// instance, anew at every reading.
pub open spec fn property_got<'a>(
    h: Heap<'a>,
    t: Seq<Task<'a>>,
    object: LoxValue,
    name: Token,
    post: Interpreter<'a>,
    action: Action,
) -> bool {
    match object {
        LoxValue::Instance(k) => {
            let instance = h.instances@[k as int];
            if instance.fields@.contains_key(name.lexeme@) {
                post.went(action, h, t, Control::Value(instance.fields@[name.lexeme@]))
            } else {
                match method_of(h.callables@, instance.klass as int, name.lexeme@) {
                    Some(method) => {
                        &&& action is Continue
                        &&& post.tasks() == t
                        &&& post.control() matches Control::Value(value)
                        &&& bound(h, post.heap(), method, k, value)
                    },
                    None => post.failed(action, h, name, undefined_property(name.lexeme@)),
                }
            }
        },
        _ => post.failed(action, h, name, "Only instances have properties."@),
    }
}

/// A field of an instance is set, whether or not it was set before; the
/// value of the expression is the value stored.
pub open spec fn field_set<'a>(
    h: Heap<'a>,
    t: Seq<Task<'a>>,
    instance: usize,
    name: Token,
    value: LoxValue,
    post: Interpreter<'a>,
    action: Action,
) -> bool {
    &&& action is Continue
    &&& post.heap().frames == h.frames
    &&& post.heap().callables == h.callables
    &&& post.heap().instances@.len() == h.instances@.len()
    &&& post.heap().instances@[instance as int].klass == h.instances@[instance as int].klass
    &&& post.heap().instances@[instance as int].fields@
        == h.instances@[instance as int].fields@.insert(name.lexeme@, value)
    &&& forall|k: int|
        0 <= k < h.instances@.len() && k != instance ==> post.heap().instances@[k]
            == h.instances@[k]
    &&& post.tasks() == t
    &&& post.control() == Control::Value(value)
}

/// The value of a superclass clause has arrived: it must be a class, and
/// then the class of the statement is made with it as its superclass.
pub open spec fn superclass_taken<'a>(
    h: Heap<'a>,
    t: Seq<Task<'a>>,
    name: &'a Token,
    clause: &'a Expr,
    methods: &'a Vec<Stmt>,
    environment: usize,
    value: LoxValue,
    post: Interpreter<'a>,
    action: Action,
) -> bool {
    if value matches LoxValue::Callable(c) && h.is_class(c) {
        class_made(h, t, name, Some(value->Callable_0), methods, environment, post, action)
    } else {
        match clause {
            Expr::Variable { name: super_name, .. } => post.failed(
                action,
                h,
                *super_name,
                "Superclass must be a class."@,
            ),
            _ => post.faulted(action, h, Fault::SuperclassNotName),
        }
    }
}

/// The machine goes on to evaluate the next argument of a call, the ones
/// before it being kept in a task.
pub open spec fn arguments_pending<'a>(
    h: Heap<'a>,
    t: Seq<Task<'a>>,
    callee: LoxValue,
    arguments: &'a Vec<Expr>,
    evaluated: Seq<LoxValue>,
    closing_paren: &'a Token,
    environment: usize,
    post: Interpreter<'a>,
    action: Action,
) -> bool {
    &&& action is Continue
    &&& post.heap() == h
    &&& post.tasks().len() == t.len() + 1
    &&& post.tasks().drop_last() == t
    &&& post.tasks().last() matches Task::Argument {
        callee: callee2,
        arguments: arguments2,
        evaluated: evaluated2,
        closing_paren: closing_paren2,
        environment: environment2,
    }
    &&& callee2 == callee
    &&& arguments2 == arguments
    &&& evaluated2@ == evaluated
    &&& closing_paren2 == closing_paren
    &&& environment2 == environment
    &&& post.control() == (Control::Evaluate {
        expression: &arguments@[evaluated.len() as int],
        environment,
    })
}

/// The arguments of a call are evaluated from left to right, after the
/// callee and before anything is asked of the callee; when the last one has
/// its value, the callee is called.
pub open spec fn argument_taken<'a>(
    h: Heap<'a>,
    t: Seq<Task<'a>>,
    callee: LoxValue,
    arguments: &'a Vec<Expr>,
    evaluated: Seq<LoxValue>,
    closing_paren: &'a Token,
    environment: usize,
    post: Interpreter<'a>,
    action: Action,
) -> bool {
    if evaluated.len() < arguments@.len() {
        arguments_pending(
            h,
            t,
            callee,
            arguments,
            evaluated,
            closing_paren,
            environment,
            post,
            action,
        )
    } else {
        invoked(h, t, callee, evaluated, *closing_paren, post, action)
    }
}

/// The result of a function body has arrived at the boundary of its call.
/// The call's value is the value returned, or `nil` if the body completed
/// without returning one; but the value of a call of an initializer is
/// always the instance that `this` is bound to in the initializer's closure.
pub open spec fn call_returned<'a>(
    h: Heap<'a>,
    t: Seq<Task<'a>>,
    is_initializer: bool,
    closure: usize,
    line: usize,
    value: LoxValue,
    post: Interpreter<'a>,
    action: Action,
) -> bool {
    if !is_initializer {
        post.went(action, h, t, Control::Value(value))
    } else if h.frames@[closure as int].bindings().contains_key(this_name()) {
        post.went(action, h, t, Control::Value(h.frames@[closure as int].bindings()[this_name()]))
    } else {
        post.failed_on_line(action, h, line, undefined_variable(this_name()))
    }
}

/// The transition that hands the value of an expression to the innermost
/// task, from a machine with heap `h` and tasks `all`.
pub open spec fn delivered<'a>(
    h: Heap<'a>,
    all: Seq<Task<'a>>,
    value: LoxValue,
    post: Interpreter<'a>,
    action: Action,
) -> bool {
    if all.len() == 0 {
        post.faulted(action, h, Fault::Misplaced)
    } else {
        let t = all.drop_last();
        match all.last() {
            Task::Discard => post.went(action, h, t, Control::Completed),
            Task::Print => printed(h, t, value, post, action),
            Task::Define { name, environment } => defined(
                h,
                t,
                environment,
                name.lexeme@,
                value,
                post,
                action,
            ),
            Task::Branch { then_branch, else_branch, environment } => if value.truthy() {
                post.went(action, h, t, Control::Execute { statement: then_branch, environment })
            } else {
                match else_branch {
                    Some(otherwise) => post.went(
                        action,
                        h,
                        t,
                        Control::Execute { statement: otherwise, environment },
                    ),
                    None => post.went(action, h, t, Control::Completed),
                }
            },
            Task::LoopTest { condition, body, environment } => if value.truthy() {
                post.went(
                    action,
                    h,
                    t.push(Task::LoopBody { condition, body, environment }),
                    Control::Execute { statement: body, environment },
                )
            } else {
                post.went(action, h, t, Control::Completed)
            },
            Task::Return => post.went(action, h, t, Control::Returning(value)),
            Task::Superclass { name, clause, methods, environment } => superclass_taken(
                h,
                t,
                name,
                clause,
                methods,
                environment,
                value,
                post,
                action,
            ),
            Task::Unary { operator } => unary_applied(h, t, *operator, value, post, action),
            Task::BinaryRight { operator, right, environment } => post.went(
                action,
                h,
                t.push(Task::BinaryApply { operator, left: value }),
                Control::Evaluate { expression: right, environment },
            ),
            Task::BinaryApply { operator, left } => binary_applied(
                h,
                t,
                *operator,
                left,
                value,
                post,
                action,
            ),
            Task::Assign { name, depth, environment } => assigned(
                h,
                t,
                *name,
                depth,
                environment,
                value,
                post,
                action,
            ),
            Task::Choose { then_branch, else_branch, environment } => post.went(
                action,
                h,
                t,
                Control::Evaluate {
                    expression: if value.truthy() {
                        then_branch
                    } else {
                        else_branch
                    },
                    environment,
                },
            ),
            Task::Logical { operator, right, environment } => match operator.token_type {
                TokenType::Or => if value.truthy() {
                    post.went(action, h, t, Control::Value(value))
                } else {
                    post.went(action, h, t, Control::Evaluate { expression: right, environment })
                },
                TokenType::And => if !value.truthy() {
                    post.went(action, h, t, Control::Value(value))
                } else {
                    post.went(action, h, t, Control::Evaluate { expression: right, environment })
                },
                _ => post.failed(action, h, *operator, "Invalid Logical operator."@),
            },
            Task::Callee { arguments, closing_paren, environment } => argument_taken(
                h,
                t,
                value,
                arguments,
                Seq::empty(),
                closing_paren,
                environment,
                post,
                action,
            ),
            Task::Argument { callee, arguments, evaluated, closing_paren, environment } =>
                argument_taken(
                h,
                t,
                callee,
                arguments,
                evaluated@.push(value),
                closing_paren,
                environment,
                post,
                action,
            ),
            Task::Get { name } => property_got(h, t, value, *name, post, action),
            Task::SetObject { name, value: stored, environment } => match value {
                LoxValue::Instance(instance) => post.went(
                    action,
                    h,
                    t.push(Task::SetValue { instance, name }),
                    Control::Evaluate { expression: stored, environment },
                ),
                _ => post.failed(action, h, *name, "Only instances have properties."@),
            },
            Task::SetValue { instance, name } => field_set(
                h,
                t,
                instance,
                *name,
                value,
                post,
                action,
            ),
            Task::Construct { instance } => post.went(
                action,
                h,
                t,
                Control::Value(LoxValue::Instance(instance)),
            ),
            _ => post.faulted(action, h, Fault::Misplaced),
        }
    }
}

/// The transition that tells the innermost task that a statement has
/// completed. With no task left, the run has finished.
pub open spec fn completed<'a>(
    h: Heap<'a>,
    all: Seq<Task<'a>>,
    post: Interpreter<'a>,
    action: Action,
) -> bool {
    if all.len() == 0 {
        post.has(h, all, Control::Idle) && action is Finished
    } else {
        let t = all.drop_last();
        match all.last() {
            Task::Sequence { statements, next, environment } => {
                &&& action is Continue
                &&& post.heap() == h
                &&& sequenced(t, statements, next, environment, post)
            },
            Task::LoopBody { condition, body, environment } => post.went(
                action,
                h,
                t.push(Task::LoopTest { condition, body, environment }),
                Control::Evaluate { expression: condition, environment },
            ),
            Task::Call { is_initializer, closure, line } => call_returned(
                h,
                t,
                is_initializer,
                closure,
                line,
                LoxValue::Nil,
                post,
                action,
            ),
            _ => post.faulted(action, h, Fault::Misplaced),
        }
    }
}

/// The transition that carries a returned value one task further out. Every
/// task that is no boundary of a call is dropped; the nearest boundary of a
/// call consumes the value. With no task left, the `return` was outside
/// every call.
pub open spec fn returned<'a>(
    h: Heap<'a>,
    all: Seq<Task<'a>>,
    value: LoxValue,
    post: Interpreter<'a>,
    action: Action,
) -> bool {
    if all.len() == 0 {
        post.faulted(action, h, Fault::ReturnOutsideFunction)
    } else {
        let t = all.drop_last();
        match all.last() {
            Task::Call { is_initializer, closure, line } => call_returned(
                h,
                t,
                is_initializer,
                closure,
                line,
                value,
                post,
                action,
            ),
            _ => post.went(action, h, t, Control::Returning(value)),
        }
    }
}

/// The transition that takes the text of a number from the driver.
pub open spec fn text_taken<'a>(
    h: Heap<'a>,
    all: Seq<Task<'a>>,
    text: Seq<char>,
    post: Interpreter<'a>,
    action: Action,
) -> bool {
    if all.len() == 0 {
        post.faulted(action, h, Fault::Misplaced)
    } else {
        let t = all.drop_last();
        match all.last() {
            Task::JoinAfter { left } => went_with_text(h, t, left@ + text, post, action),
            Task::JoinBefore { right } => went_with_text(h, t, text + right@, post, action),
            Task::PrintText => {
                &&& post.has(h, t, Control::Completed)
                &&& action matches Action::Print(line)
                &&& line@ == text
            },
            _ => post.faulted(action, h, Fault::Misplaced),
        }
    }
}

/// One transition of the machine. An idle machine stays idle. What the
/// driver hands in counts only where the machine waits for it; there, an
/// answer of the wrong kind is a fault.
pub open spec fn stepped<'a>(
    pre: Interpreter<'a>,
    event: Event,
    post: Interpreter<'a>,
    action: Action,
) -> bool {
    let h = pre.heap();
    let t = pre.tasks();
    match pre.control() {
        Control::Idle => post.has(h, t, Control::Idle) && action is Finished,
        Control::Execute { statement, environment } => executed(
            h,
            t,
            statement,
            environment,
            post,
            action,
        ),
        Control::Evaluate { expression, environment } => evaluated(
            h,
            t,
            expression,
            environment,
            post,
            action,
        ),
        Control::Value(value) => delivered(h, t, value, post, action),
        Control::Completed => completed(h, t, post, action),
        Control::Returning(value) => returned(h, t, value, post, action),
        Control::AwaitNumber => match event {
            Event::Number(bits) => post.went(
                action,
                h,
                t,
                Control::Value(LoxValue::Number(bits)),
            ),
            _ => post.faulted(action, h, Fault::UnexpectedEvent),
        },
        Control::AwaitText => match event {
            Event::Text(text) => text_taken(h, t, text@, post, action),
            _ => post.faulted(action, h, Fault::UnexpectedEvent),
        },
    }
}

impl<'a> Interpreter<'a> {
    /// Assigns a value to a variable.
    fn assign(
        &mut self,
        name: &Token,
        depth: Option<usize>,
        environment: usize,
        value: LoxValue,
    ) -> (action: Action)
        requires
            old(self).heap.well_formed(),
            tasks_ok(old(self).heap, old(self).tasks@),
            environment < old(self).heap.frames@.len(),
            old(self).heap.value_ok(value),
        ensures
            final(self).well_formed(),
            assigned(
                old(self).heap(),
                old(self).tasks(),
                *name,
                depth,
                environment,
                value,
                *final(self),
                action,
            ),
    {
        if !self.heap.reaches(environment, depth) {
            return self.fault(Fault::ScopeDistance);
        }
        match self.heap.assign_at(environment, depth, name, value.clone()) {
            Ok(_) => {
                proof {
                    lemma_tasks_ok_grown(old(self).heap, self.heap, self.tasks@);
                }
                self.go(Control::Value(value))
            },
            Err(event) => self.fail_with(event),
        }
    }

    /// Reads a property of a value.
    fn get_property(&mut self, object: LoxValue, name: &Token) -> (action: Action)
        requires
            old(self).heap.well_formed(),
            old(self).heap.frames@.len() > 0,
            tasks_ok(old(self).heap, old(self).tasks@),
            old(self).heap.value_ok(object),
        ensures
            final(self).well_formed(),
            property_got(old(self).heap(), old(self).tasks(), object, *name, *final(self), action),
    {
        match object {
            LoxValue::Instance(instance) => {
                match LoxInstance::get(&mut self.heap, instance, name) {
                    Ok(value) => {
                        proof {
                            lemma_tasks_ok_grown(old(self).heap, self.heap, self.tasks@);
                        }
                        self.go(Control::Value(value))
                    },
                    Err(event) => self.fail_with(event),
                }
            },
            _ => self.fail_at(name, "Only instances have properties."),
        }
    }

    /// Stores a value in a field of an instance.
    fn set_field(&mut self, instance: usize, name: &Token, value: LoxValue) -> (action: Action)
        requires
            old(self).heap.well_formed(),
            old(self).heap.frames@.len() > 0,
            tasks_ok(old(self).heap, old(self).tasks@),
            instance < old(self).heap.instances@.len(),
            old(self).heap.value_ok(value),
        ensures
            final(self).well_formed(),
            field_set(
                old(self).heap(),
                old(self).tasks(),
                instance,
                *name,
                value,
                *final(self),
                action,
            ),
    {
        self.heap.set_field(instance, name, value.clone());
        proof {
            lemma_tasks_ok_grown(old(self).heap, self.heap, self.tasks@);
        }
        self.go(Control::Value(value))
    }

    /// Takes the value of a superclass clause and makes the class.
    fn take_superclass(
        &mut self,
        name: &'a Token,
        clause: &'a Expr,
        methods: &'a Vec<Stmt>,
        environment: usize,
        value: LoxValue,
    ) -> (action: Action)
        requires
            old(self).heap.well_formed(),
            tasks_ok(old(self).heap, old(self).tasks@),
            environment < old(self).heap.frames@.len(),
            old(self).heap.value_ok(value),
        ensures
            final(self).well_formed(),
            superclass_taken(
                old(self).heap(),
                old(self).tasks(),
                name,
                clause,
                methods,
                environment,
                value,
                *final(self),
                action,
            ),
    {
        let class = match value {
            LoxValue::Callable(c) => match &self.heap.callables[c] {
                LoxCallable::Class { .. } => Some(c),
                _ => None,
            },
            _ => None,
        };
        match class {
            Some(c) => self.make_class(name, Some(c), methods, environment),
            None => match clause {
                Expr::Variable { name: super_name, .. } => self.fail_at(
                    super_name,
                    "Superclass must be a class.",
                ),
                _ => self.fault(Fault::SuperclassNotName),
            },
        }
    }

    /// Goes on with the next argument of a call, or calls the callee once
    /// every argument has its value.
    fn take_argument(
        &mut self,
        callee: LoxValue,
        arguments: &'a Vec<Expr>,
        evaluated: Vec<LoxValue>,
        closing_paren: &'a Token,
        environment: usize,
    ) -> (action: Action)
        requires
            old(self).heap.well_formed(),
            tasks_ok(old(self).heap, old(self).tasks@),
            environment < old(self).heap.frames@.len(),
            old(self).heap.value_ok(callee),
            evaluated@.len() <= arguments@.len(),
            forall|i: int| 0 <= i < evaluated@.len() ==> old(self).heap.value_ok(#[trigger] evaluated@[i]),
        ensures
            final(self).well_formed(),
            argument_taken(
                old(self).heap(),
                old(self).tasks(),
                callee,
                arguments,
                evaluated@,
                closing_paren,
                environment,
                *final(self),
                action,
            ),
    {
        let count = evaluated.len();
        if count < arguments.len() {
            let action = self.push(
                Task::Argument { callee, arguments, evaluated, closing_paren, environment },
                Control::Evaluate { expression: &arguments[count], environment },
            );
            proof {
                assert(self.tasks@.drop_last() =~= old(self).tasks@);
            }
            action
        } else {
            self.invoke(callee, evaluated, closing_paren)
        }
    }

    /// Takes the result of a function body at the boundary of its call.
    fn return_from_call(
        &mut self,
        is_initializer: bool,
        closure: usize,
        line: usize,
        value: LoxValue,
    ) -> (action: Action)
        requires
            old(self).heap.well_formed(),
            tasks_ok(old(self).heap, old(self).tasks@),
            closure < old(self).heap.frames@.len(),
            old(self).heap.value_ok(value),
        ensures
            final(self).well_formed(),
            call_returned(
                old(self).heap(),
                old(self).tasks(),
                is_initializer,
                closure,
                line,
                value,
                *final(self),
                action,
            ),
    {
        if !is_initializer {
            return self.go(Control::Value(value));
        }
        let this_token = Token::new(TokenType::This, String::from_str("this"), line);
        match self.heap.get_at(closure, Some(0), &this_token) {
            Ok(instance) => self.go(Control::Value(instance)),
            Err(event) => self.fail_with(event),
        }
    }

    /// Hands the value of an expression to the innermost task.
    fn deliver(&mut self, value: LoxValue) -> (action: Action)
        requires
            old(self).heap.well_formed(),
            old(self).heap.frames@.len() > 0,
            tasks_ok(old(self).heap, old(self).tasks@),
            old(self).heap.value_ok(value),
        ensures
            final(self).well_formed(),
            delivered(old(self).heap(), old(self).tasks(), value, *final(self), action),
    {
        let task = match self.tasks.pop() {
            Some(task) => task,
            None => {
                return self.fault(Fault::Misplaced);
            },
        };
        assert(task_ok(self.heap, task));
        assert(tasks_ok(self.heap, self.tasks@)) by {
            assert forall|i: int| 0 <= i < self.tasks@.len() implies task_ok(
                self.heap,
                #[trigger] self.tasks@[i],
            ) by {
                assert(self.tasks@[i] == old(self).tasks@[i]);
            }
        }
        match task {
            Task::Discard => self.go(Control::Completed),
            Task::Print => self.print(value),
            Task::Define { name, environment } => self.define(environment, name, value),
            Task::Branch { then_branch, else_branch, environment } => {
                if value.is_truthy() {
                    self.go(Control::Execute { statement: then_branch, environment })
                } else {
                    match else_branch {
                        Some(otherwise) => self.go(
                            Control::Execute { statement: otherwise, environment },
                        ),
                        None => self.go(Control::Completed),
                    }
                }
            },
            Task::LoopTest { condition, body, environment } => {
                if value.is_truthy() {
                    self.push(
                        Task::LoopBody { condition, body, environment },
                        Control::Execute { statement: body, environment },
                    )
                } else {
                    self.go(Control::Completed)
                }
            },
            Task::Return => self.go(Control::Returning(value)),
            Task::Superclass { name, clause, methods, environment } => self.take_superclass(
                name,
                clause,
                methods,
                environment,
                value,
            ),
            Task::Unary { operator } => self.apply_unary(operator, value),
            Task::BinaryRight { operator, right, environment } => self.push(
                Task::BinaryApply { operator, left: value },
                Control::Evaluate { expression: right, environment },
            ),
            Task::BinaryApply { operator, left } => self.apply_binary(operator, left, value),
            Task::Assign { name, depth, environment } => self.assign(
                name,
                depth,
                environment,
                value,
            ),
            Task::Choose { then_branch, else_branch, environment } => {
                if value.is_truthy() {
                    self.go(Control::Evaluate { expression: then_branch, environment })
                } else {
                    self.go(Control::Evaluate { expression: else_branch, environment })
                }
            },
            Task::Logical { operator, right, environment } => match operator.token_type {
                TokenType::Or => {
                    if value.is_truthy() {
                        self.go(Control::Value(value))
                    } else {
                        self.go(Control::Evaluate { expression: right, environment })
                    }
                },
                TokenType::And => {
                    if !value.is_truthy() {
                        self.go(Control::Value(value))
                    } else {
                        self.go(Control::Evaluate { expression: right, environment })
                    }
                },
                _ => self.fail_at(operator, "Invalid Logical operator."),
            },
            Task::Callee { arguments, closing_paren, environment } => self.take_argument(
                value,
                arguments,
                Vec::new(),
                closing_paren,
                environment,
            ),
            Task::Argument { callee, arguments, evaluated, closing_paren, environment } => {
                let mut evaluated = evaluated;
                evaluated.push(value);
                self.take_argument(callee, arguments, evaluated, closing_paren, environment)
            },
            Task::Get { name } => self.get_property(value, name),
            Task::SetObject { name, value: stored, environment } => match value {
                LoxValue::Instance(instance) => self.push(
                    Task::SetValue { instance, name },
                    Control::Evaluate { expression: stored, environment },
                ),
                _ => self.fail_at(name, "Only instances have properties."),
            },
            Task::SetValue { instance, name } => self.set_field(instance, name, value),
            Task::Construct { instance } => self.go(Control::Value(LoxValue::Instance(instance))),
            _ => self.fault(Fault::Misplaced),
        }
    }

    /// Tells the innermost task that a statement has completed.
    fn complete(&mut self) -> (action: Action)
        requires
            old(self).heap.well_formed(),
            old(self).heap.frames@.len() > 0,
            tasks_ok(old(self).heap, old(self).tasks@),
        ensures
            final(self).well_formed(),
            completed(old(self).heap(), old(self).tasks(), *final(self), action),
    {
        let task = match self.tasks.pop() {
            Some(task) => task,
            None => {
                self.control = Control::Idle;
                return Action::Finished;
            },
        };
        assert(task_ok(self.heap, task));
        assert(tasks_ok(self.heap, self.tasks@)) by {
            assert forall|i: int| 0 <= i < self.tasks@.len() implies task_ok(
                self.heap,
                #[trigger] self.tasks@[i],
            ) by {
                assert(self.tasks@[i] == old(self).tasks@[i]);
            }
        }
        match task {
            Task::Sequence { statements, next, environment } => self.sequence(
                statements,
                next,
                environment,
            ),
            Task::LoopBody { condition, body, environment } => self.push(
                Task::LoopTest { condition, body, environment },
                Control::Evaluate { expression: condition, environment },
            ),
            Task::Call { is_initializer, closure, line } => self.return_from_call(
                is_initializer,
                closure,
                line,
                LoxValue::Nil,
            ),
            _ => self.fault(Fault::Misplaced),
        }
    }

    /// Carries a returned value one task further out.
    fn unwind(&mut self, value: LoxValue) -> (action: Action)
        requires
            old(self).heap.well_formed(),
            old(self).heap.frames@.len() > 0,
            tasks_ok(old(self).heap, old(self).tasks@),
            old(self).heap.value_ok(value),
        ensures
            final(self).well_formed(),
            returned(old(self).heap(), old(self).tasks(), value, *final(self), action),
    {
        let task = match self.tasks.pop() {
            Some(task) => task,
            None => {
                return self.fault(Fault::ReturnOutsideFunction);
            },
        };
        assert(task_ok(self.heap, task));
        assert(tasks_ok(self.heap, self.tasks@)) by {
            assert forall|i: int| 0 <= i < self.tasks@.len() implies task_ok(
                self.heap,
                #[trigger] self.tasks@[i],
            ) by {
                assert(self.tasks@[i] == old(self).tasks@[i]);
            }
        }
        match task {
            Task::Call { is_initializer, closure, line } => self.return_from_call(
                is_initializer,
                closure,
                line,
                value,
            ),
            _ => self.go(Control::Returning(value)),
        }
    }

    /// Takes the text of a number from the driver.
    fn take_text(&mut self, text: String) -> (action: Action)
        requires
            old(self).heap.well_formed(),
            old(self).heap.frames@.len() > 0,
            tasks_ok(old(self).heap, old(self).tasks@),
        ensures
            final(self).well_formed(),
            text_taken(old(self).heap(), old(self).tasks(), text@, *final(self), action),
    {
        let task = match self.tasks.pop() {
            Some(task) => task,
            None => {
                return self.fault(Fault::Misplaced);
            },
        };
        assert(tasks_ok(self.heap, self.tasks@)) by {
            assert forall|i: int| 0 <= i < self.tasks@.len() implies task_ok(
                self.heap,
                #[trigger] self.tasks@[i],
            ) by {
                assert(self.tasks@[i] == old(self).tasks@[i]);
            }
        }
        match task {
            Task::JoinAfter { left } => self.go_with_text(
                crate::text::join(left.as_str(), text.as_str()),
            ),
            Task::JoinBefore { right } => self.go_with_text(
                crate::text::join(text.as_str(), right.as_str()),
            ),
            Task::PrintText => {
                self.control = Control::Completed;
                Action::Print(text)
            },
            _ => self.fault(Fault::Misplaced),
        }
    }

    /// A machine with nothing to do. Its heap holds the global frame, which
    /// binds `clock` to the native clock function.
    pub fn new() -> (r: Interpreter<'a>)
        ensures
            r.well_formed(),
            r.control() is Idle,
            r.tasks() == Seq::<Task<'a>>::empty(),
            r.heap().frames@.len() == 1,
            r.heap().frames@[0].parent() is None,
            r.heap().frames@[0].bindings() == Map::<Seq<char>, LoxValue>::empty().insert(
                "clock"@,
                LoxValue::Callable(0),
            ),
            r.heap().callables@ == seq![LoxCallable::ClockFunction],
            r.heap().instances@.len() == 0,
    {
        let mut heap = Heap::new();
        let globals = heap.new_frame(None);
        let clock = heap.new_callable(LoxCallable::ClockFunction);
        heap.define(globals, String::from_str("clock"), LoxValue::Callable(clock));
        let r = Interpreter { heap, control: Control::Idle, tasks: Vec::new() };
        assert(r.heap.callables@ =~= seq![LoxCallable::ClockFunction]);
        r
    }

    /// Loads a list of statements: the machine will execute them in order in
    /// the global frame. Whatever the machine was about to do is dropped; the
    /// heap stays, so that what earlier statements defined is still there.
    pub fn interpret(&mut self, statements: &'a Vec<Stmt>)
        requires
            old(self).well_formed(),
        ensures
            final(self).well_formed(),
            final(self).heap() == old(self).heap(),
            sequenced(Seq::empty(), statements, 0, 0, *final(self)),
            orderly(*final(self)),
    {
        self.tasks.clear();
        self.control = Control::Idle;
        let _ = self.sequence(statements, 0, 0);
        proof {
            lemma_sequenced_orderly(Seq::empty(), statements, 0, 0, *self);
        }
    }

    /// Takes one transition, and says what the driver is to do next.
    pub fn step(&mut self, event: Event) -> (action: Action)
        requires
            old(self).well_formed(),
        ensures
            final(self).well_formed(),
            stepped(*old(self), event, *final(self), action),
    {
        let mut control = Control::Idle;
        std::mem::swap(&mut control, &mut self.control);
        match control {
            Control::Idle => Action::Finished,
            Control::Execute { statement, environment } => self.execute(statement, environment),
            Control::Evaluate { expression, environment } => self.evaluate(expression, environment),
            Control::Value(value) => self.deliver(value),
            Control::Completed => self.complete(),
            Control::Returning(value) => self.unwind(value),
            Control::AwaitNumber => match event {
                Event::Number(bits) => self.go(Control::Value(LoxValue::Number(bits))),
                _ => self.fault(Fault::UnexpectedEvent),
            },
            Control::AwaitText => match event {
                Event::Text(text) => self.take_text(text),
                _ => self.fault(Fault::UnexpectedEvent),
            },
        }
    }
}

/// A call with a number of arguments other than the callable's arity is an
/// arity error, whatever the callable is; and then no frame was made, no
/// parameter was bound, and no statement of a body is about to run: the heap
/// is as it was and the run has ended.
pub proof fn law_arity_is_checked_first<'a>(
    h: Heap<'a>,
    t: Seq<Task<'a>>,
    callable: usize,
    arguments: Seq<LoxValue>,
    call_token: Token,
    post: Interpreter<'a>,
    action: Action,
)
    requires
        called(h, t, callable, arguments, call_token, post, action),
        arity_of(h.callables@, callable as int) != arguments.len(),
    ensures
        post.heap() == h,
        post.control() is Idle,
        post.tasks().len() == 0,
        action matches Action::Failed(error) && error.is(
            call_token,
            arity_mismatch(arity_of(h.callables@, callable as int), arguments.len()),
        ),
{
}

/// The value of a call of an initializer does not depend on what its body
/// came to: whether the body completed, returned early without a value, or
/// returned anything else, the call gives what `this` is bound to in the
/// initializer's closure.
pub proof fn law_initializer_yields_this<'a>(
    h: Heap<'a>,
    t: Seq<Task<'a>>,
    closure: usize,
    line: usize,
    result: LoxValue,
    post: Interpreter<'a>,
    action: Action,
)
    requires
        call_returned(h, t, true, closure, line, result, post, action),
        h.frames@[closure as int].bindings().contains_key(this_name()),
    ensures
        action is Continue,
        post.heap() == h,
        post.tasks() == t,
        post.control() == Control::Value(h.frames@[closure as int].bindings()[this_name()]),
{
}

/// Binding a method to an instance makes a closure in which `this` is that
/// instance, so that a bound initializer yields the instance.
pub proof fn law_bound_closure_holds_instance<'a>(
    before: Heap<'a>,
    after: Heap<'a>,
    method: usize,
    instance: usize,
    result: LoxValue,
)
    requires
        bound(before, after, method, instance, result),
    ensures
        result matches LoxValue::Callable(b) && after.callables@[b as int] matches LoxCallable::Function {
            closure,
            ..
        } && after.frames@[closure as int].bindings().contains_key(this_name())
            && after.frames@[closure as int].bindings()[this_name()] == LoxValue::Instance(
            instance,
        ),
{
    assert(before.callables@.len() == before.callables.len());
    assert(before.frames@.len() == before.frames.len());
}

/// A constructor's value is the new instance: once the initializer has come
/// to any value at all, the task that was put under its call hands out the
/// instance and drops that value.
pub proof fn law_constructor_yields_instance<'a>(
    h: Heap<'a>,
    all: Seq<Task<'a>>,
    instance: usize,
    result: LoxValue,
    post: Interpreter<'a>,
    action: Action,
)
    requires
        all.len() > 0,
        all.last() == (Task::Construct { instance }),
        delivered(h, all, result, post, action),
    ensures
        post.went(action, h, all.drop_last(), Control::Value(LoxValue::Instance(instance))),
{
}

/// `super.method` is looked up from the class that `super` is bound to, and
/// from nowhere else: the class of the instance, and whatever classes further
/// down override the method, play no part. The method found is bound to the
/// instance that `this` is bound to.
pub proof fn law_super_starts_at_superclass<'a>(
    h: Heap<'a>,
    t: Seq<Task<'a>>,
    environment: usize,
    keyword: Token,
    method: Token,
    depth: usize,
    post: Interpreter<'a>,
    action: Action,
)
    requires
        super_looked_up(h, t, environment, keyword, method, depth, post, action),
        action is Continue,
    ensures
        ({
            let outer = target(h.frames@, environment as int, Some(depth)).unwrap();
            let inner = target(h.frames@, environment as int, Some((depth - 1) as usize)).unwrap();
            &&& h.frames@[outer].bindings()[keyword.lexeme@] matches LoxValue::Callable(class)
            &&& h.frames@[inner].bindings()[this_name()] matches LoxValue::Instance(instance)
            &&& method_of(h.callables@, class as int, method.lexeme@) matches Some(m)
            &&& post.control() matches Control::Value(value)
            &&& bound(h, post.heap(), m, instance, value)
        }),
{
}

/// A division by zero is an error, whatever the dividend is: the driver is
/// never asked to divide by zero.
pub proof fn law_no_division_by_zero<'a>(
    h: Heap<'a>,
    t: Seq<Task<'a>>,
    operator: Token,
    dividend: u64,
    divisor: u64,
    post: Interpreter<'a>,
    action: Action,
)
    requires
        operator.token_type is Slash,
        number::is_zero(divisor),
        binary_applied(
            h,
            t,
            operator,
            LoxValue::Number(dividend),
            LoxValue::Number(divisor),
            post,
            action,
        ),
    ensures
        post.failed(action, h, operator, "Cannot divide by 0."@),
{
}

impl<'a> LoxCallable<'a> {
    /// Calls the callable at `callable` with arguments. The number of
    /// arguments is checked against the callable's arity before anything
    /// else happens. The clock asks the driver for the time; a function is
    /// entered; a class makes an instance and enters its initializer.
    pub fn call(
        interpreter: &mut Interpreter<'a>,
        callable: usize,
        arguments: Vec<LoxValue>,
        call_token: &Token,
    ) -> (action: Action)
        requires
            old(interpreter).well_formed(),
            callable < old(interpreter).heap().callables@.len(),
            forall|i: int|
                0 <= i < arguments@.len() ==> old(interpreter).heap().value_ok(
                    #[trigger] arguments@[i],
                ),
        ensures
            final(interpreter).well_formed(),
            called(
                old(interpreter).heap(),
                old(interpreter).tasks(),
                callable,
                arguments@,
                *call_token,
                *final(interpreter),
                action,
            ),
    {
        interpreter.call_callable(callable, arguments, call_token)
    }
}

/// What the machine can begin to work on in a frame: a statement, a list of
/// statements, an expression.
pub trait Evaluatable<'a> {
    /// The transition that begins the work.
    spec fn begun(
        &'a self,
        h: Heap<'a>,
        t: Seq<Task<'a>>,
        environment: usize,
        post: Interpreter<'a>,
        action: Action,
    ) -> bool;

    /// Begins the work in a frame: takes the first transition of it, and
    /// leaves the rest to the transitions that follow.
    fn evaluate(&'a self, environment: usize, interpreter: &mut Interpreter<'a>) -> (action: Action)
        requires
            old(interpreter).well_formed(),
            environment < old(interpreter).heap().frames@.len(),
        ensures
            final(interpreter).well_formed(),
            self.begun(
                old(interpreter).heap(),
                old(interpreter).tasks(),
                environment,
                *final(interpreter),
                action,
            ),
    ;
}

impl<'a> Evaluatable<'a> for Stmt {
    open spec fn begun(
        &'a self,
        h: Heap<'a>,
        t: Seq<Task<'a>>,
        environment: usize,
        post: Interpreter<'a>,
        action: Action,
    ) -> bool {
        executed(h, t, self, environment, post, action)
    }

    fn evaluate(&'a self, environment: usize, interpreter: &mut Interpreter<'a>) -> (action: Action) {
        interpreter.execute(self, environment)
    }
}

impl<'a> Evaluatable<'a> for Vec<Stmt> {
    open spec fn begun(
        &'a self,
        h: Heap<'a>,
        t: Seq<Task<'a>>,
        environment: usize,
        post: Interpreter<'a>,
        action: Action,
    ) -> bool {
        &&& action is Continue
        &&& post.heap() == h
        &&& sequenced(t, self, 0, environment, post)
    }

    fn evaluate(&'a self, environment: usize, interpreter: &mut Interpreter<'a>) -> (action: Action) {
        interpreter.sequence(self, 0, environment)
    }
}

impl<'a> Evaluatable<'a> for Expr {
    open spec fn begun(
        &'a self,
        h: Heap<'a>,
        t: Seq<Task<'a>>,
        environment: usize,
        post: Interpreter<'a>,
        action: Action,
    ) -> bool {
        evaluated(h, t, self, environment, post, action)
    }

    fn evaluate(&'a self, environment: usize, interpreter: &mut Interpreter<'a>) -> (action: Action) {
        interpreter.evaluate(self, environment)
    }
}

/// What a heap holds stays as it is when the heap goes on to `after`: every
/// frame keeps its link, every callable stays what it is, and every instance
/// stays of its class. Only bindings and fields change, and only new things
/// are added.
pub open spec fn kept<'a>(before: Heap<'a>, after: Heap<'a>) -> bool {
    &&& before.frames@.len() <= after.frames@.len()
    &&& forall|i: int|
        0 <= i < before.frames@.len() ==> (#[trigger] after.frames@[i]).parent()
            == before.frames@[i].parent()
    &&& before.callables@.len() <= after.callables@.len()
    &&& forall|c: int|
        0 <= c < before.callables@.len() ==> #[trigger] after.callables@[c] == before.callables@[c]
    &&& before.instances@.len() <= after.instances@.len()
    &&& forall|k: int|
        0 <= k < before.instances@.len() ==> (#[trigger] after.instances@[k]).klass
            == before.instances@[k].klass
}

proof fn lemma_rebound_kept<'a>(
    before: Heap<'a>,
    after: Heap<'a>,
    at: int,
    name: Seq<char>,
    value: LoxValue,
)
    requires
        crate::environment::rebound(before.frames@, after.frames@, at, name, value),
        after.callables == before.callables,
        after.instances == before.instances,
    ensures
        kept(before, after),
{
    assert forall|i: int| 0 <= i < before.frames@.len() implies (#[trigger] after.frames@[i]).parent()
        == before.frames@[i].parent() by {
        if i != at {
            assert(after.frames@[i] == before.frames@[i]);
        }
    }
}

proof fn lemma_pushed_kept(
    before: Seq<Environment>,
    after: Seq<Environment>,
    parent: Option<usize>,
    bindings: Map<Seq<char>, LoxValue>,
)
    requires
        frame_pushed(before, after, parent, bindings),
    ensures
        forall|i: int| 0 <= i < before.len() ==> #[trigger] after[i] == before[i],
{
    assert forall|i: int| 0 <= i < before.len() implies #[trigger] after[i] == before[i] by {
        assert(after.drop_last()[i] == before[i]);
    }
}

proof fn lemma_bound_kept<'a>(
    before: Heap<'a>,
    after: Heap<'a>,
    method: usize,
    instance: usize,
    result: LoxValue,
)
    requires
        bound(before, after, method, instance, result),
    ensures
        kept(before, after),
{
    match before.callables@[method as int] {
        LoxCallable::Function { closure, .. } => {
            lemma_pushed_kept(
                before.frames@,
                after.frames@,
                Some(closure),
                Map::<Seq<char>, LoxValue>::empty().insert("this"@, LoxValue::Instance(instance)),
            );
        },
        _ => {},
    }
}

proof fn lemma_class_made_kept<'a>(
    h: Heap<'a>,
    t: Seq<Task<'a>>,
    name: &'a Token,
    superclass: Option<usize>,
    methods: &'a Vec<Stmt>,
    environment: usize,
    post: Interpreter<'a>,
    action: Action,
)
    requires
        class_made(h, t, name, superclass, methods, environment, post, action),
    ensures
        kept(h, post.heap()),
{
    if all_functions(methods@) {
        let p = post.heap();
        assert forall|c: int| 0 <= c < h.callables@.len() implies #[trigger] p.callables@[c]
            == h.callables@[c] by {
            assert(p.callables@.subrange(0, h.callables@.len() as int)[c] == h.callables@[c]);
        }
        assert forall|i: int| 0 <= i < h.frames@.len() implies (#[trigger] p.frames@[i]).parent()
            == h.frames@[i].parent() by {
            match superclass {
                Some(_) => {
                    assert(p.frames@[i] == p.frames@.drop_last()[i]);
                    if i != environment {
                        assert(p.frames@.drop_last()[i] == h.frames@[i]);
                    }
                },
                None => {
                    if i != environment {
                        assert(p.frames@[i] == h.frames@[i]);
                    }
                },
            }
        }
    }
}

proof fn lemma_sequenced_entry_kept<'a>(
    h: Heap<'a>,
    p: Heap<'a>,
    parent: Option<usize>,
    bindings: Map<Seq<char>, LoxValue>,
)
    requires
        frame_pushed(h.frames@, p.frames@, parent, bindings),
        p.callables == h.callables,
        p.instances == h.instances,
    ensures
        kept(h, p),
{
    lemma_pushed_kept(h.frames@, p.frames@, parent, bindings);
}

proof fn lemma_called_kept<'a>(
    h: Heap<'a>,
    t: Seq<Task<'a>>,
    callable: usize,
    arguments: Seq<LoxValue>,
    call_token: Token,
    post: Interpreter<'a>,
    action: Action,
)
    requires
        called(h, t, callable, arguments, call_token, post, action),
    ensures
        kept(h, post.heap()),
{
    let p = post.heap();
    if arity_of(h.callables@, callable as int) == arguments.len() {
        match h.callables@[callable as int] {
            LoxCallable::ClockFunction => {},
            LoxCallable::Function { declaration, closure, .. } => {
                lemma_sequenced_entry_kept(
                    h,
                    p,
                    Some(closure),
                    parameters(declaration.params@, arguments, arguments.len()),
                );
            },
            LoxCallable::Class { .. } => {
                assert forall|k: int| 0 <= k < h.instances@.len() implies (
                #[trigger] p.instances@[k]).klass == h.instances@[k].klass by {
                    assert(p.instances@.drop_last()[k] == h.instances@[k]);
                }
                match method_of(h.callables@, callable as int, "init"@) {
                    None => {},
                    Some(initializer) => {
                        assert forall|i: int| 0 <= i < h.frames@.len() implies (
                        #[trigger] p.frames@[i]).parent() == h.frames@[i].parent() by {
                            assert(p.frames@.subrange(0, h.frames@.len() as int)[i]
                                == h.frames@[i]);
                        }
                    },
                }
            },
        }
    }
}

proof fn lemma_delivered_kept<'a>(
    h: Heap<'a>,
    all: Seq<Task<'a>>,
    value: LoxValue,
    post: Interpreter<'a>,
    action: Action,
)
    requires
        delivered(h, all, value, post, action),
    ensures
        kept(h, post.heap()),
{
    if all.len() > 0 {
        let t = all.drop_last();
        let p = post.heap();
        match all.last() {
            Task::Define { name, environment } => {
                lemma_rebound_kept(h, p, environment as int, name.lexeme@, value);
            },
            Task::Superclass { name, clause, methods, environment } => {
                if value matches LoxValue::Callable(c) && h.is_class(c) {
                    lemma_class_made_kept(
                        h,
                        t,
                        name,
                        Some(value->Callable_0),
                        methods,
                        environment,
                        post,
                        action,
                    );
                }
            },
            Task::Assign { name, depth, environment } => {
                match target(h.frames@, environment as int, depth) {
                    Some(at) => {
                        if h.frames@[at].bindings().contains_key(name.lexeme@) {
                            lemma_rebound_kept(h, p, at, name.lexeme@, value);
                        }
                    },
                    None => {},
                }
            },
            Task::Callee { arguments, closing_paren, .. } => {
                if 0 >= arguments@.len() {
                    if value is Callable {
                        lemma_called_kept(
                            h,
                            t,
                            value->Callable_0,
                            Seq::empty(),
                            *closing_paren,
                            post,
                            action,
                        );
                    }
                }
            },
            Task::Argument { callee, arguments, evaluated, closing_paren, .. } => {
                if evaluated@.push(value).len() >= arguments@.len() {
                    if callee is Callable {
                        lemma_called_kept(
                            h,
                            t,
                            callee->Callable_0,
                            evaluated@.push(value),
                            *closing_paren,
                            post,
                            action,
                        );
                    }
                }
            },
            Task::Get { name } => {
                match value {
                    LoxValue::Instance(k) => {
                        let instance = h.instances@[k as int];
                        if !instance.fields@.contains_key(name.lexeme@) {
                            match method_of(h.callables@, instance.klass as int, name.lexeme@) {
                                Some(method) => {
                                    lemma_bound_kept(
                                        h,
                                        p,
                                        method,
                                        k,
                                        post.control()->Value_0,
                                    );
                                },
                                None => {},
                            }
                        }
                    },
                    _ => {},
                }
            },
            Task::SetValue { instance, name } => {
                assert forall|k: int| 0 <= k < h.instances@.len() implies (
                #[trigger] p.instances@[k]).klass == h.instances@[k].klass by {
                    if k != instance {
                        assert(p.instances@[k] == h.instances@[k]);
                    }
                }
            },
            _ => {},
        }
    }
}

/// Nothing that a run has made is ever unmade or made into something else:
/// over every transition, every frame keeps the frame it lies in, every
/// function keeps its declaration and the frame it was defined in, every
/// class keeps its superclass and its methods, and every instance keeps its
/// class.
pub proof fn law_nothing_is_unmade<'a>(
    pre: Interpreter<'a>,
    event: Event,
    post: Interpreter<'a>,
    action: Action,
)
    requires
        stepped(pre, event, post, action),
    ensures
        kept(pre.heap(), post.heap()),
{
    let h = pre.heap();
    let t = pre.tasks();
    let p = post.heap();
    match pre.control() {
        Control::Execute { statement, environment } => {
            match statement {
                Stmt::Var { name, initializer } => {
                    if initializer is None {
                        lemma_rebound_kept(h, p, environment as int, name.lexeme@, LoxValue::Nil);
                    }
                },
                Stmt::Block { .. } => {
                    lemma_sequenced_entry_kept(h, p, Some(environment), Map::empty());
                },
                Stmt::Function { name, .. } => {
                    assert forall|i: int| 0 <= i < h.frames@.len() implies (
                    #[trigger] p.frames@[i]).parent() == h.frames@[i].parent() by {
                        if i != environment {
                            assert(p.frames@[i] == h.frames@[i]);
                        }
                    }
                },
                Stmt::Class { name, superclass, methods } => {
                    if superclass is None {
                        lemma_class_made_kept(h, t, name, None, methods, environment, post, action);
                    } else {
                        lemma_rebound_kept(h, p, environment as int, name.lexeme@, LoxValue::Nil);
                    }
                },
                _ => {},
            }
        },
        Control::Evaluate { expression, environment } => {
            match expression {
                Expr::Super { keyword, method, depth } => {
                    if action is Continue {
                        law_super_starts_at_superclass(
                            h,
                            t,
                            environment,
                            *keyword,
                            *method,
                            *depth,
                            post,
                            action,
                        );
                        let outer = target(h.frames@, environment as int, Some(*depth)).unwrap();
                        let inner = target(
                            h.frames@,
                            environment as int,
                            Some((*depth - 1) as usize),
                        ).unwrap();
                        let class = h.frames@[outer].bindings()[keyword.lexeme@]->Callable_0;
                        let instance = h.frames@[inner].bindings()[this_name()]->Instance_0;
                        let m = method_of(h.callables@, class as int, method.lexeme@).unwrap();
                        lemma_bound_kept(h, p, m, instance, post.control()->Value_0);
                    }
                },
                _ => {},
            }
        },
        Control::Value(value) => {
            lemma_delivered_kept(h, t, value, post, action);
        },
        _ => {},
    }
}

/// A machine that has nothing to do stays as it is, whatever it is handed.
pub proof fn law_idle_stays_idle<'a>(
    pre: Interpreter<'a>,
    event: Event,
    post: Interpreter<'a>,
    action: Action,
)
    requires
        stepped(pre, event, post, action),
        pre.control() is Idle,
    ensures
        action is Finished,
        post.has(pre.heap(), pre.tasks(), Control::Idle),
{
}

/// What ends a run leaves the machine with nothing to do: a runtime error or
/// a fault is the last thing that a run does, and no statement behind it is
/// executed.
pub proof fn law_an_error_ends_the_run<'a>(
    pre: Interpreter<'a>,
    event: Event,
    post: Interpreter<'a>,
    action: Action,
)
    requires
        stepped(pre, event, post, action),
        action is Failed || action is Fault || action is Finished,
    ensures
        post.control() is Idle,
        action is Failed || action is Fault ==> post.tasks().len() == 0,
{
}

/// What is handed from the control to a task, or from a task to the one
/// under it.
pub enum Handed {
    /// The value of an expression.
    Value,
    /// The completion of a statement.
    Completion,
    /// The text of a number.
    Text,
}

/// What a task takes.
pub open spec fn takes(task: Task) -> Handed {
    match task {
        Task::Sequence { .. } => Handed::Completion,
        Task::LoopBody { .. } => Handed::Completion,
        Task::Call { .. } => Handed::Completion,
        Task::JoinAfter { .. } => Handed::Text,
        Task::JoinBefore { .. } => Handed::Text,
        Task::PrintText => Handed::Text,
        _ => Handed::Value,
    }
}

/// What a task hands to the task under it once it is done. (The task of a
/// `return` is done with a statement, though what it does is to return.)
pub open spec fn hands_on(task: Task) -> Handed {
    match task {
        Task::Sequence { .. } => Handed::Completion,
        Task::Discard => Handed::Completion,
        Task::Print => Handed::Completion,
        Task::Define { .. } => Handed::Completion,
        Task::Branch { .. } => Handed::Completion,
        Task::LoopTest { .. } => Handed::Completion,
        Task::LoopBody { .. } => Handed::Completion,
        Task::Return => Handed::Completion,
        Task::Superclass { .. } => Handed::Completion,
        Task::PrintText => Handed::Completion,
        _ => Handed::Value,
    }
}

/// Whether the innermost task takes what is handed to it. The completion of
/// a statement may also find no task: then the run has finished.
pub open spec fn taken(tasks: Seq<Task>, handed: Handed) -> bool {
    if tasks.len() == 0 {
        handed is Completion
    } else {
        takes(tasks.last()) == handed
    }
}

/// Whether every task takes what the task over it hands on.
pub open spec fn stacked(tasks: Seq<Task>) -> bool
    decreases tasks.len(),
{
    tasks.len() == 0 || (stacked(tasks.drop_last()) && taken(
        tasks.drop_last(),
        hands_on(tasks.last()),
    ))
}

/// What the control is about to hand to the innermost task, if anything.
pub open spec fn hands(control: Control) -> Option<Handed> {
    match control {
        Control::Execute { .. } => Some(Handed::Completion),
        Control::Completed => Some(Handed::Completion),
        Control::Evaluate { .. } => Some(Handed::Value),
        Control::Value(_) => Some(Handed::Value),
        Control::AwaitNumber => Some(Handed::Value),
        Control::AwaitText => Some(Handed::Text),
        Control::Returning(_) => None,
        Control::Idle => None,
    }
}

/// Whether the machine is in order: every task takes what the task over it
/// hands on, and the innermost task takes what the control is about to hand
/// to it.
pub open spec fn orderly<'a>(machine: Interpreter<'a>) -> bool {
    &&& stacked(machine.tasks())
    &&& match hands(machine.control()) {
        Some(handed) => taken(machine.tasks(), handed),
        None => true,
    }
}

proof fn lemma_stacked_push(tasks: Seq<Task>, task: Task)
    requires
        stacked(tasks),
        taken(tasks, hands_on(task)),
    ensures
        stacked(tasks.push(task)),
        taken(tasks.push(task), takes(task)),
{
    assert(tasks.push(task).drop_last() =~= tasks);
}

proof fn lemma_stacked_pop(tasks: Seq<Task>)
    requires
        stacked(tasks),
        tasks.len() > 0,
    ensures
        stacked(tasks.drop_last()),
        taken(tasks.drop_last(), hands_on(tasks.last())),
{
}

proof fn lemma_sequenced_orderly<'a>(
    t: Seq<Task<'a>>,
    statements: &'a Vec<Stmt>,
    index: usize,
    environment: usize,
    post: Interpreter<'a>,
)
    requires
        stacked(t),
        taken(t, Handed::Completion),
        sequenced(t, statements, index, environment, post),
    ensures
        orderly(post),
{
    if index < statements@.len() {
        lemma_stacked_push(
            t,
            Task::Sequence { statements, next: (index + 1) as usize, environment },
        );
    }
}

proof fn lemma_called_orderly<'a>(
    h: Heap<'a>,
    t: Seq<Task<'a>>,
    callable: usize,
    arguments: Seq<LoxValue>,
    call_token: Token,
    post: Interpreter<'a>,
    action: Action,
)
    requires
        stacked(t),
        taken(t, Handed::Value),
        called(h, t, callable, arguments, call_token, post, action),
    ensures
        orderly(post),
        !(action matches Action::Fault(Fault::Misplaced)),
{
    if arity_of(h.callables@, callable as int) == arguments.len() {
        match h.callables@[callable as int] {
            LoxCallable::ClockFunction => {},
            LoxCallable::Function { declaration, closure, is_initializer } => {
                let boundary = Task::Call { is_initializer, closure, line: call_token.line };
                lemma_stacked_push(t, boundary);
                lemma_sequenced_orderly(
                    t.push(boundary),
                    declaration.body,
                    0,
                    h.frames@.len() as usize,
                    post,
                );
            },
            LoxCallable::Class { .. } => {
                match method_of(h.callables@, callable as int, "init"@) {
                    None => {},
                    Some(initializer) => {
                        match h.callables@[initializer as int] {
                            LoxCallable::Function { declaration, closure, is_initializer } => {
                                let instance = h.instances@.len() as usize;
                                let binding = h.frames@.len() as usize;
                                let construct = Task::Construct { instance };
                                let boundary = Task::Call {
                                    is_initializer,
                                    closure: binding,
                                    line: call_token.line,
                                };
                                lemma_stacked_push(t, construct);
                                lemma_stacked_push(t.push(construct), boundary);
                                lemma_sequenced_orderly(
                                    t.push(construct).push(boundary),
                                    declaration.body,
                                    0,
                                    (binding + 1) as usize,
                                    post,
                                );
                            },
                            _ => {},
                        }
                    },
                }
            },
        }
    }
}

proof fn lemma_invoked_orderly<'a>(
    h: Heap<'a>,
    t: Seq<Task<'a>>,
    callee: LoxValue,
    arguments: Seq<LoxValue>,
    call_token: Token,
    post: Interpreter<'a>,
    action: Action,
)
    requires
        stacked(t),
        taken(t, Handed::Value),
        invoked(h, t, callee, arguments, call_token, post, action),
    ensures
        orderly(post),
        !(action matches Action::Fault(Fault::Misplaced)),
{
    match callee {
        LoxValue::Callable(callable) => {
            lemma_called_orderly(h, t, callable, arguments, call_token, post, action);
        },
        _ => {},
    }
}

proof fn lemma_argument_taken_orderly<'a>(
    h: Heap<'a>,
    t: Seq<Task<'a>>,
    callee: LoxValue,
    arguments: &'a Vec<Expr>,
    evaluated: Seq<LoxValue>,
    closing_paren: &'a Token,
    environment: usize,
    post: Interpreter<'a>,
    action: Action,
)
    requires
        stacked(t),
        taken(t, Handed::Value),
        argument_taken(
            h,
            t,
            callee,
            arguments,
            evaluated,
            closing_paren,
            environment,
            post,
            action,
        ),
    ensures
        orderly(post),
        !(action matches Action::Fault(Fault::Misplaced)),
{
    if evaluated.len() < arguments@.len() {
        lemma_stacked_push(post.tasks().drop_last(), post.tasks().last());
        assert(post.tasks().drop_last().push(post.tasks().last()) =~= post.tasks());
    } else {
        lemma_invoked_orderly(h, t, callee, evaluated, *closing_paren, post, action);
    }
}

proof fn lemma_delivered_orderly<'a>(
    h: Heap<'a>,
    all: Seq<Task<'a>>,
    value: LoxValue,
    post: Interpreter<'a>,
    action: Action,
)
    requires
        stacked(all),
        taken(all, Handed::Value),
        delivered(h, all, value, post, action),
    ensures
        orderly(post),
        !(action matches Action::Fault(Fault::Misplaced)),
{
    let t = all.drop_last();
    lemma_stacked_pop(all);
    match all.last() {
        Task::LoopTest { condition, body, environment } => {
            lemma_stacked_push(t, Task::LoopBody { condition, body, environment });
        },
        Task::Print => {
            lemma_stacked_push(t, Task::PrintText);
        },
        Task::BinaryRight { operator, right, environment } => {
            lemma_stacked_push(t, Task::BinaryApply { operator, left: value });
        },
        Task::BinaryApply { operator, left } => {
            match (left, value) {
                (LoxValue::String(l), LoxValue::Number(_)) => {
                    lemma_stacked_push(t, Task::JoinAfter { left: l });
                },
                (LoxValue::Number(_), LoxValue::String(r)) => {
                    lemma_stacked_push(t, Task::JoinBefore { right: r });
                },
                _ => {},
            }
        },
        Task::Callee { arguments, closing_paren, environment } => {
            lemma_argument_taken_orderly(
                h,
                t,
                value,
                arguments,
                Seq::empty(),
                closing_paren,
                environment,
                post,
                action,
            );
        },
        Task::Argument { callee, arguments, evaluated, closing_paren, environment } => {
            lemma_argument_taken_orderly(
                h,
                t,
                callee,
                arguments,
                evaluated@.push(value),
                closing_paren,
                environment,
                post,
                action,
            );
        },
        Task::SetObject { name, value: stored, environment } => {
            match value {
                LoxValue::Instance(instance) => {
                    lemma_stacked_push(t, Task::SetValue { instance, name });
                },
                _ => {},
            }
        },
        _ => {},
    }
}

/// A machine that is in order stays in order, and no result ever arrives
/// where no task can take it. A machine is in order when statements are
/// loaded into it, so that a run that begins there never ends with that
/// fault.
pub proof fn law_order_is_kept<'a>(
    pre: Interpreter<'a>,
    event: Event,
    post: Interpreter<'a>,
    action: Action,
)
    requires
        orderly(pre),
        stepped(pre, event, post, action),
    ensures
        orderly(post),
        !(action matches Action::Fault(Fault::Misplaced)),
{
    let h = pre.heap();
    let t = pre.tasks();
    match pre.control() {
        Control::Execute { statement, environment } => {
            match statement {
                Stmt::Expression { .. } => {
                    lemma_stacked_push(t, Task::Discard);
                },
                Stmt::Print { .. } => {
                    lemma_stacked_push(t, Task::Print);
                },
                Stmt::Var { name, initializer } => {
                    if initializer is Some {
                        lemma_stacked_push(t, Task::Define { name, environment });
                    }
                },
                Stmt::Block { statements } => {
                    lemma_sequenced_orderly(t, statements, 0, h.frames@.len() as usize, post);
                },
                Stmt::If { condition, then_branch, else_branch } => {
                    lemma_stacked_push(
                        t,
                        Task::Branch {
                            then_branch: &**then_branch,
                            else_branch: match else_branch {
                                Some(otherwise) => Some(&**otherwise),
                                None => None,
                            },
                            environment,
                        },
                    );
                },
                Stmt::While { condition, body } => {
                    lemma_stacked_push(t, Task::LoopTest { condition, body: &**body, environment });
                },
                Stmt::Return { value, .. } => {
                    if value is Some {
                        lemma_stacked_push(t, Task::Return);
                    }
                },
                Stmt::Class { name, superclass, methods } => {
                    match superclass {
                        Some(clause) => {
                            lemma_stacked_push(
                                t,
                                Task::Superclass { name, clause, methods, environment },
                            );
                        },
                        None => {},
                    }
                },
                _ => {},
            }
        },
        Control::Evaluate { expression, environment } => {
            match expression {
                Expr::Unary { operator, .. } => {
                    lemma_stacked_push(t, Task::Unary { operator });
                },
                Expr::Binary { operator, right, .. } => {
                    lemma_stacked_push(
                        t,
                        Task::BinaryRight { operator, right: &**right, environment },
                    );
                },
                Expr::Assign { name, depth, .. } => {
                    lemma_stacked_push(t, Task::Assign { name, depth: *depth, environment });
                },
                Expr::Conditional { then_branch, else_branch, .. } => {
                    lemma_stacked_push(
                        t,
                        Task::Choose {
                            then_branch: &**then_branch,
                            else_branch: &**else_branch,
                            environment,
                        },
                    );
                },
                Expr::Logical { operator, right, .. } => {
                    lemma_stacked_push(t, Task::Logical { operator, right: &**right, environment });
                },
                Expr::Call { closing_paren, arguments, .. } => {
                    lemma_stacked_push(t, Task::Callee { arguments, closing_paren, environment });
                },
                Expr::Get { name, .. } => {
                    lemma_stacked_push(t, Task::Get { name });
                },
                Expr::SetProperty { name, value, .. } => {
                    lemma_stacked_push(
                        t,
                        Task::SetObject { name, value: &**value, environment },
                    );
                },
                _ => {},
            }
        },
        Control::Value(value) => {
            lemma_delivered_orderly(h, t, value, post, action);
        },
        Control::Completed => {
            if t.len() > 0 {
                lemma_stacked_pop(t);
                match t.last() {
                    Task::Sequence { statements, next, environment } => {
                        lemma_sequenced_orderly(t.drop_last(), statements, next, environment, post);
                    },
                    Task::LoopBody { condition, body, environment } => {
                        lemma_stacked_push(
                            t.drop_last(),
                            Task::LoopTest { condition, body, environment },
                        );
                    },
                    _ => {},
                }
            }
        },
        Control::Returning(value) => {
            if t.len() > 0 {
                lemma_stacked_pop(t);
            }
        },
        Control::AwaitText => {
            if t.len() > 0 {
                lemma_stacked_pop(t);
            }
        },
        _ => {},
    }
}

} // verus!
