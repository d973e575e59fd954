//! Scope distances and frames agree. A tree is scoped at a depth if every
//! scope distance in it leads to a frame when the tree is run in a frame
//! that lies that many frames inside the outermost one. The resolver leaves
//! every tree that it accepts scoped, and the interpreter runs a scoped tree
//! in scoped frames only: it never finds that a distance leads further out
//! than there are frames. The one exception is a `super` whose own distance
//! is zero, which leaves no frame inside it for the `this` that it needs.
use vstd::prelude::*;
use crate::environment::{hop, linked, outermost, rebound, target, Environment};
use crate::expr::Expr;
use crate::heap::{arity_of, frame_pushed, method_of, Heap};
use crate::interpreter::{
    all_functions, argument_taken, call_returned, called, class_made, declared_function,
    delivered, evaluated, executed, kept, law_nothing_is_unmade, looked_up, method_table,
    parameters, sequenced, stepped, super_looked_up, task_ok, tasks_ok, this_name, Action,
    Control, Event, Fault, Interpreter, Task,
};
use crate::lox_callable::LoxCallable;
use crate::lox_class::LoxClass;
use crate::lox_instance::bound;
use crate::resolver::{
    after_expr, after_function, after_stmt, after_superclass, annotated_expr, annotated_exprs,
    annotated_method, annotated_methods, annotated_stmt, annotated_stmts, balanced, class_entry,
    class_header, distance, exprs_state, function_entry, law_distance_is_nearest,
    law_expressions_keep_scopes, law_statements_balance_scopes, lemma_function_balances,
    lemma_methods_balance, lemma_params_balance, lemma_statement_lists_balance, method_kind,
    methods_state, return_checked, stmts_state, FunctionType, ScopeErrorKind, Scoping,
};
use crate::stmt::Stmt;
use crate::token::Token;
use crate::value::LoxValue;

verus! {

/// Whether every scope distance in the expression is at most `depth`.
#[verifier::opaque]
pub open spec fn expr_scoped(expr: Expr, depth: nat) -> bool
    decreases expr,
{
    match expr {
        Expr::Binary { left, right, .. } => expr_scoped(*left, depth) && expr_scoped(*right, depth),
        Expr::Logical { left, right, .. } => expr_scoped(*left, depth) && expr_scoped(
            *right,
            depth,
        ),
        Expr::Grouping { expression } => expr_scoped(*expression, depth),
        Expr::Literal { .. } => true,
        Expr::Unary { right, .. } => expr_scoped(*right, depth),
        Expr::Variable { depth: distance, .. } => match distance {
            Some(d) => d <= depth,
            None => true,
        },
        Expr::Assign { value, depth: distance, .. } => expr_scoped(*value, depth) && match distance {
            Some(d) => d <= depth,
            None => true,
        },
        Expr::Conditional { condition, then_branch, else_branch } => expr_scoped(
            *condition,
            depth,
        ) && expr_scoped(*then_branch, depth) && expr_scoped(*else_branch, depth),
        Expr::Call { callee, arguments, .. } => expr_scoped(*callee, depth) && forall|i: int|
            0 <= i < arguments@.len() ==> expr_scoped(#[trigger] arguments@[i], depth),
        Expr::Get { object, .. } => expr_scoped(*object, depth),
        Expr::SetProperty { object, value, .. } => expr_scoped(*object, depth) && expr_scoped(
            *value,
            depth,
        ),
        Expr::This { depth: distance, .. } => distance <= depth,
        Expr::Super { depth: distance, .. } => distance <= depth,
    }
}

/// Whether every scope distance in the statement is at most the depth of
/// the place where it stands, the statement itself standing at `depth`: a
/// block and the body of a function stand one deeper than the statement that
/// holds them, and the body of a method two deeper than the closure of the
/// method, which lies one deeper than the class if the class has a
/// superclass.
#[verifier::opaque]
pub open spec fn stmt_scoped(stmt: Stmt, depth: nat) -> bool
    decreases stmt,
{
    match stmt {
        Stmt::Block { statements } => forall|i: int|
            0 <= i < statements@.len() ==> stmt_scoped(#[trigger] statements@[i], depth + 1),
        Stmt::Class { superclass, methods, .. } => {
            &&& match superclass {
                Some(clause) => expr_scoped(clause, depth),
                None => true,
            }
            &&& forall|i: int|
                0 <= i < methods@.len() ==> match #[trigger] methods@[i] {
                    Stmt::Function { body, .. } => forall|j: int|
                        0 <= j < body@.len() ==> stmt_scoped(
                            #[trigger] body@[j],
                            depth + if superclass is Some {
                                3nat
                            } else {
                                2nat
                            },
                        ),
                    _ => true,
                }
        },
        Stmt::Expression { expr } => expr_scoped(expr, depth),
        Stmt::Function { body, .. } => forall|i: int|
            0 <= i < body@.len() ==> stmt_scoped(#[trigger] body@[i], depth + 1),
        Stmt::If { condition, then_branch, else_branch } => expr_scoped(condition, depth)
            && stmt_scoped(*then_branch, depth) && match else_branch {
            Some(otherwise) => stmt_scoped(*otherwise, depth),
            None => true,
        },
        Stmt::While { condition, body } => expr_scoped(condition, depth) && stmt_scoped(
            *body,
            depth,
        ),
        Stmt::Print { expr } => expr_scoped(expr, depth),
        Stmt::Return { value, .. } => match value {
            Some(result) => expr_scoped(result, depth),
            None => true,
        },
        Stmt::Var { initializer, .. } => match initializer {
            Some(value) => expr_scoped(value, depth),
            None => true,
        },
    }
}

/// Whether every statement of a list is scoped at `depth`.
pub open spec fn stmts_scoped(stmts: Seq<Stmt>, depth: nat) -> bool {
    forall|i: int| 0 <= i < stmts.len() ==> stmt_scoped(#[trigger] stmts[i], depth)
}

/// Whether every expression of a list is scoped at `depth`.
pub open spec fn exprs_scoped(exprs: Seq<Expr>, depth: nat) -> bool {
    forall|i: int| 0 <= i < exprs.len() ==> expr_scoped(#[trigger] exprs[i], depth)
}

/// How many frames lie between a frame and the outermost frame of its
/// chain: how many links its chain has.
pub open spec fn depth_of(frames: Seq<Environment>, frame: int) -> nat
    decreases frame,
{
    if 0 <= frame < frames.len() {
        match frames[frame].parent() {
            Some(p) => if p < frame {
                depth_of(frames, p as int) + 1
            } else {
                0
            },
            None => 0,
        }
    } else {
        0
    }
}

/// A distance of at most the depth of a frame leads to a frame, which lies
/// that much less deep.
pub proof fn lemma_within_depth_reaches(frames: Seq<Environment>, frame: int, distance: nat)
    requires
        linked(frames),
        0 <= frame < frames.len(),
        distance <= depth_of(frames, frame),
    ensures
        hop(frames, frame, distance) matches Some(f) && 0 <= f < frames.len() && depth_of(
            frames,
            f,
        ) + distance == depth_of(frames, frame),
    decreases distance,
{
    if distance > 0 {
        match frames[frame].parent() {
            Some(p) => {
                lemma_within_depth_reaches(frames, p as int, (distance - 1) as nat);
            },
            None => {},
        }
    }
}

/// Every distance that is unknown or at most the depth of a frame leads to
/// a frame.
pub proof fn law_scoped_distance_reaches(
    frames: Seq<Environment>,
    frame: int,
    distance: Option<usize>,
)
    requires
        linked(frames),
        0 <= frame < frames.len(),
        match distance {
            Some(d) => d <= depth_of(frames, frame),
            None => true,
        },
    ensures
        target(frames, frame, distance) is Some,
{
    match distance {
        Some(d) => lemma_within_depth_reaches(frames, frame, d as nat),
        None => {},
    }
}

/// Frames that keep their links keep their depths.
pub proof fn lemma_depth_kept(before: Seq<Environment>, after: Seq<Environment>, frame: int)
    requires
        linked(before),
        before.len() <= after.len(),
        forall|i: int| 0 <= i < before.len() ==> (#[trigger] after[i]).parent() == before[i].parent(),
        0 <= frame < before.len(),
    ensures
        depth_of(after, frame) == depth_of(before, frame),
    decreases frame,
{
    assert(after[frame].parent() == before[frame].parent());
    match before[frame].parent() {
        Some(p) => {
            lemma_depth_kept(before, after, p as int);
        },
        None => {},
    }
}

/// Whether the body of a function is scoped at the depth at which it runs:
/// `extra` frames inside the closure of the function. A function that is
/// called runs one frame inside its closure; a method that is not yet bound
/// to an instance will run two frames inside its closure.
pub open spec fn body_scoped(frames: Seq<Environment>, callable: LoxCallable, extra: nat) -> bool {
    match callable {
        LoxCallable::Function { declaration, closure, .. } => stmts_scoped(
            declaration.body@,
            depth_of(frames, closure as int) + extra,
        ),
        _ => true,
    }
}

/// Whether a value, if it is a function, can be called: its body is scoped
/// one frame inside its closure.
pub open spec fn value_scoped(heap: Heap, value: LoxValue) -> bool {
    match value {
        LoxValue::Callable(c) => c < heap.callables@.len() ==> body_scoped(
            heap.frames@,
            heap.callables@[c as int],
            1,
        ),
        _ => true,
    }
}

/// Whether every value of a table can be called if it is a function.
pub open spec fn values_scoped(heap: Heap, values: Map<Seq<char>, LoxValue>) -> bool {
    forall|name: Seq<char>| #[trigger]
        values.contains_key(name) ==> value_scoped(heap, values[name])
}

/// Whether every method of a class can be bound: its body is scoped two
/// frames inside its closure.
pub open spec fn class_scoped(heap: Heap, class: LoxClass) -> bool {
    forall|name: Seq<char>| #[trigger]
        class.methods@.contains_key(name) ==> class.methods@[name] < heap.callables@.len()
            ==> body_scoped(heap.frames@, heap.callables@[class.methods@[name] as int], 2)
}

/// Whether everything in the heap is scoped: the values that frames bind and
/// instances hold, and the methods of classes.
pub open spec fn heap_scoped(heap: Heap) -> bool {
    &&& forall|i: int|
        0 <= i < heap.frames@.len() ==> values_scoped(heap, (#[trigger] heap.frames@[i]).bindings())
    &&& forall|k: int|
        0 <= k < heap.instances@.len() ==> values_scoped(
            heap,
            (#[trigger] heap.instances@[k]).fields@,
        )
    &&& forall|c: int|
        0 <= c < heap.callables@.len() ==> match #[trigger] heap.callables@[c] {
            LoxCallable::Class { class } => class_scoped(heap, class),
            _ => true,
        }
}

/// Whether the body of every function among the members of a class body is
/// scoped at the given depth.
pub open spec fn methods_scoped(methods: Seq<Stmt>, depth: nat) -> bool {
    forall|i: int|
        0 <= i < methods.len() ==> match #[trigger] methods[i] {
            Stmt::Function { body, .. } => stmts_scoped(body@, depth),
            _ => true,
        }
}

/// Whether what a task still has to run is scoped at the depth of the frame
/// in which it will run it, and the values that it holds are scoped.
pub open spec fn task_scoped(heap: Heap, task: Task) -> bool {
    match task {
        Task::Sequence { statements, environment, .. } => stmts_scoped(
            statements@,
            depth_of(heap.frames@, environment as int),
        ),
        Task::Branch { then_branch, else_branch, environment } => stmt_scoped(
            *then_branch,
            depth_of(heap.frames@, environment as int),
        ) && match else_branch {
            Some(otherwise) => stmt_scoped(*otherwise, depth_of(heap.frames@, environment as int)),
            None => true,
        },
        Task::LoopTest { condition, body, environment } => expr_scoped(
            *condition,
            depth_of(heap.frames@, environment as int),
        ) && stmt_scoped(*body, depth_of(heap.frames@, environment as int)),
        Task::LoopBody { condition, body, environment } => expr_scoped(
            *condition,
            depth_of(heap.frames@, environment as int),
        ) && stmt_scoped(*body, depth_of(heap.frames@, environment as int)),
        Task::Superclass { methods, environment, .. } => methods_scoped(
            methods@,
            depth_of(heap.frames@, environment as int) + 3,
        ),
        Task::BinaryRight { right, environment, .. } => expr_scoped(
            *right,
            depth_of(heap.frames@, environment as int),
        ),
        Task::BinaryApply { left, .. } => value_scoped(heap, left),
        Task::Assign { depth, environment, .. } => match depth {
            Some(d) => d <= depth_of(heap.frames@, environment as int),
            None => true,
        },
        Task::Choose { then_branch, else_branch, environment } => expr_scoped(
            *then_branch,
            depth_of(heap.frames@, environment as int),
        ) && expr_scoped(*else_branch, depth_of(heap.frames@, environment as int)),
        Task::Logical { right, environment, .. } => expr_scoped(
            *right,
            depth_of(heap.frames@, environment as int),
        ),
        Task::Callee { arguments, environment, .. } => exprs_scoped(
            arguments@,
            depth_of(heap.frames@, environment as int),
        ),
        Task::Argument { callee, arguments, evaluated, environment, .. } => {
            &&& exprs_scoped(arguments@, depth_of(heap.frames@, environment as int))
            &&& value_scoped(heap, callee)
            &&& forall|i: int|
                0 <= i < evaluated@.len() ==> value_scoped(heap, #[trigger] evaluated@[i])
        },
        Task::SetObject { value, environment, .. } => expr_scoped(
            *value,
            depth_of(heap.frames@, environment as int),
        ),
        _ => true,
    }
}

/// Whether every task is scoped.
pub open spec fn tasks_scoped(heap: Heap, tasks: Seq<Task>) -> bool {
    forall|i: int| 0 <= i < tasks.len() ==> task_scoped(heap, #[trigger] tasks[i])
}

/// Whether what the control is about to run is scoped at the depth of the
/// frame in which it will run it, and the value that it holds is scoped.
pub open spec fn control_scoped(heap: Heap, control: Control) -> bool {
    match control {
        Control::Execute { statement, environment } => stmt_scoped(
            *statement,
            depth_of(heap.frames@, environment as int),
        ),
        Control::Evaluate { expression, environment } => expr_scoped(
            *expression,
            depth_of(heap.frames@, environment as int),
        ),
        Control::Value(value) => value_scoped(heap, value),
        Control::Returning(value) => value_scoped(heap, value),
        _ => true,
    }
}

/// Whether the machine runs scoped trees in scoped frames only.
pub open spec fn machine_scoped<'a>(machine: Interpreter<'a>) -> bool {
    &&& heap_scoped(machine.heap())
    &&& control_scoped(machine.heap(), machine.control())
    &&& tasks_scoped(machine.heap(), machine.tasks())
}

/// The frames of a well-formed heap are linked.
proof fn lemma_heap_linked(heap: Heap)
    requires
        heap.well_formed(),
    ensures
        linked(heap.frames@),
{
    heap.lemma_linked();
}

/// What is kept keeps the depths of its frames.
proof fn lemma_kept_depth<'a>(h: Heap<'a>, p: Heap<'a>, frame: int)
    requires
        h.well_formed(),
        kept(h, p),
        0 <= frame < h.frames@.len(),
    ensures
        depth_of(p.frames@, frame) == depth_of(h.frames@, frame),
{
    lemma_heap_linked(h);
    lemma_depth_kept(h.frames@, p.frames@, frame);
}

/// A callable that was scoped stays scoped.
proof fn lemma_kept_body<'a>(h: Heap<'a>, p: Heap<'a>, c: int, extra: nat)
    requires
        h.well_formed(),
        kept(h, p),
        0 <= c < h.callables@.len(),
        body_scoped(h.frames@, h.callables@[c], extra),
    ensures
        body_scoped(p.frames@, p.callables@[c], extra),
{
    assert(h.callable_ok(c));
    assert(p.callables@[c] == h.callables@[c]);
    match h.callables@[c] {
        LoxCallable::Function { closure, .. } => {
            lemma_kept_depth(h, p, closure as int);
        },
        _ => {},
    }
}

/// A value that was scoped stays scoped.
proof fn lemma_kept_value<'a>(h: Heap<'a>, p: Heap<'a>, value: LoxValue)
    requires
        h.well_formed(),
        kept(h, p),
        h.value_ok(value),
        value_scoped(h, value),
    ensures
        value_scoped(p, value),
{
    match value {
        LoxValue::Callable(c) => {
            lemma_kept_body(h, p, c as int, 1);
        },
        _ => {},
    }
}

/// A task that was scoped stays scoped.
proof fn lemma_kept_task<'a>(h: Heap<'a>, p: Heap<'a>, task: Task<'a>)
    requires
        h.well_formed(),
        kept(h, p),
        task_ok(h, task),
        task_scoped(h, task),
    ensures
        task_scoped(p, task),
{
    match task {
        Task::Sequence { environment, .. } => lemma_kept_depth(h, p, environment as int),
        Task::Branch { environment, .. } => lemma_kept_depth(h, p, environment as int),
        Task::LoopTest { environment, .. } => lemma_kept_depth(h, p, environment as int),
        Task::LoopBody { environment, .. } => lemma_kept_depth(h, p, environment as int),
        Task::Superclass { environment, .. } => lemma_kept_depth(h, p, environment as int),
        Task::BinaryRight { environment, .. } => lemma_kept_depth(h, p, environment as int),
        Task::BinaryApply { left, .. } => lemma_kept_value(h, p, left),
        Task::Assign { environment, .. } => lemma_kept_depth(h, p, environment as int),
        Task::Choose { environment, .. } => lemma_kept_depth(h, p, environment as int),
        Task::Logical { environment, .. } => lemma_kept_depth(h, p, environment as int),
        Task::Callee { environment, .. } => lemma_kept_depth(h, p, environment as int),
        Task::Argument { callee, evaluated, environment, .. } => {
            lemma_kept_depth(h, p, environment as int);
            lemma_kept_value(h, p, callee);
            assert forall|i: int| 0 <= i < evaluated@.len() implies value_scoped(
                p,
                #[trigger] evaluated@[i],
            ) by {
                lemma_kept_value(h, p, evaluated@[i]);
            }
        },
        Task::SetObject { environment, .. } => lemma_kept_depth(h, p, environment as int),
        _ => {},
    }
}

/// Tasks that were scoped stay scoped.
proof fn lemma_kept_tasks<'a>(h: Heap<'a>, p: Heap<'a>, tasks: Seq<Task<'a>>)
    requires
        h.well_formed(),
        kept(h, p),
        tasks_ok(h, tasks),
        tasks_scoped(h, tasks),
    ensures
        tasks_scoped(p, tasks),
{
    assert forall|i: int| 0 <= i < tasks.len() implies task_scoped(p, #[trigger] tasks[i]) by {
        lemma_kept_task(h, p, tasks[i]);
    }
}

/// A class that was scoped stays scoped.
proof fn lemma_kept_class<'a>(h: Heap<'a>, p: Heap<'a>, c: int)
    requires
        h.well_formed(),
        kept(h, p),
        0 <= c < h.callables@.len(),
        h.callables@[c] matches LoxCallable::Class { class } && class_scoped(h, class),
    ensures
        p.callables@[c] matches LoxCallable::Class { class } && class_scoped(p, class),
{
    assert(h.callable_ok(c));
    assert(p.callables@[c] == h.callables@[c]);
    match h.callables@[c] {
        LoxCallable::Class { class } => {
            assert forall|name: Seq<char>| #[trigger]
                class.methods@.contains_key(name) && class.methods@[name]
                    < p.callables@.len() implies body_scoped(
                p.frames@,
                p.callables@[class.methods@[name] as int],
                2,
            ) by {
                lemma_kept_body(h, p, class.methods@[name] as int, 2);
            }
        },
        _ => {},
    }
}

/// A heap that has gone on stays scoped if what is new in it is scoped:
/// every binding and every field that was not there before with the same
/// value, and every class that was not there before.
proof fn lemma_heap_scoped_on<'a>(h: Heap<'a>, p: Heap<'a>)
    requires
        h.well_formed(),
        heap_scoped(h),
        kept(h, p),
        forall|i: int, name: Seq<char>|
            0 <= i < p.frames@.len() && #[trigger] p.frames@[i].bindings().contains_key(name) ==> {
                ||| value_scoped(p, p.frames@[i].bindings()[name])
                ||| {
                    &&& i < h.frames@.len()
                    &&& h.frames@[i].bindings().contains_key(name)
                    &&& h.frames@[i].bindings()[name] == p.frames@[i].bindings()[name]
                }
            },
        forall|k: int, name: Seq<char>|
            0 <= k < p.instances@.len() && #[trigger] p.instances@[k].fields@.contains_key(name)
                ==> {
                ||| value_scoped(p, p.instances@[k].fields@[name])
                ||| {
                    &&& k < h.instances@.len()
                    &&& h.instances@[k].fields@.contains_key(name)
                    &&& h.instances@[k].fields@[name] == p.instances@[k].fields@[name]
                }
            },
        forall|c: int|
            h.callables@.len() <= c < p.callables@.len() ==> match #[trigger] p.callables@[c] {
                LoxCallable::Class { class } => class_scoped(p, class),
                _ => true,
            },
    ensures
        heap_scoped(p),
{
    assert forall|i: int| 0 <= i < p.frames@.len() implies values_scoped(
        p,
        (#[trigger] p.frames@[i]).bindings(),
    ) by {
        assert forall|name: Seq<char>| #[trigger]
            p.frames@[i].bindings().contains_key(name) implies value_scoped(
            p,
            p.frames@[i].bindings()[name],
        ) by {
            if !value_scoped(p, p.frames@[i].bindings()[name]) {
                assert(h.frame_ok(i));
                assert(values_scoped(h, h.frames@[i].bindings()));
                lemma_kept_value(h, p, h.frames@[i].bindings()[name]);
            }
        }
    }
    assert forall|k: int| 0 <= k < p.instances@.len() implies values_scoped(
        p,
        (#[trigger] p.instances@[k]).fields@,
    ) by {
        assert forall|name: Seq<char>| #[trigger]
            p.instances@[k].fields@.contains_key(name) implies value_scoped(
            p,
            p.instances@[k].fields@[name],
        ) by {
            if !value_scoped(p, p.instances@[k].fields@[name]) {
                assert(h.instance_ok(k));
                assert(values_scoped(h, h.instances@[k].fields@));
                lemma_kept_value(h, p, h.instances@[k].fields@[name]);
            }
        }
    }
    assert forall|c: int| 0 <= c < p.callables@.len() implies match #[trigger] p.callables@[c] {
        LoxCallable::Class { class } => class_scoped(p, class),
        _ => true,
    } by {
        if c < h.callables@.len() {
            assert(p.callables@[c] == h.callables@[c]);
            if h.callables@[c] is Class {
                lemma_kept_class(h, p, c);
            }
        }
    }
}

/// A frame that is made inside another lies one deeper; one that is made
/// inside none lies at depth zero.
proof fn lemma_pushed_depth(
    before: Seq<Environment>,
    after: Seq<Environment>,
    parent: Option<usize>,
    bindings: Map<Seq<char>, LoxValue>,
)
    requires
        linked(before),
        frame_pushed(before, after, parent, bindings),
        match parent {
            Some(p) => p < before.len(),
            None => true,
        },
    ensures
        depth_of(after, before.len() as int) == match parent {
            Some(p) => depth_of(before, p as int) + 1,
            None => 0,
        },
{
    match parent {
        Some(p) => {
            assert forall|i: int| 0 <= i < before.len() implies (#[trigger] after[i]).parent()
                == before[i].parent() by {
                assert(after.drop_last()[i] == before[i]);
            }
            lemma_depth_kept(before, after, p as int);
        },
        None => {},
    }
}

/// The method that a class offers is scoped as a method.
proof fn lemma_method_scoped(h: Heap, class: int, name: Seq<char>)
    requires
        h.well_formed(),
        heap_scoped(h),
        0 <= class < h.callables@.len(),
        method_of(h.callables@, class, name) is Some,
    ensures
        ({
            let m = method_of(h.callables@, class, name).unwrap();
            m < h.callables@.len() && h.callables@[m as int] is Function && body_scoped(
                h.frames@,
                h.callables@[m as int],
                2,
            )
        }),
    decreases class,
{
    assert(h.callable_ok(class));
    match h.callables@[class] {
        LoxCallable::Class { class: c } => {
            if !c.methods@.contains_key(name) {
                match c.superclass {
                    Some(s) => {
                        lemma_method_scoped(h, s as int, name);
                    },
                    None => {},
                }
            } else {
                assert(class_scoped(h, c));
            }
        },
        _ => {},
    }
}

/// Binding a name to a scoped value leaves the heap scoped.
proof fn lemma_rebound_scoped<'a>(
    h: Heap<'a>,
    p: Heap<'a>,
    at: int,
    name: Seq<char>,
    value: LoxValue,
)
    requires
        h.well_formed(),
        heap_scoped(h),
        kept(h, p),
        rebound(h.frames@, p.frames@, at, name, value),
        p.callables == h.callables,
        p.instances == h.instances,
        value_scoped(p, value),
    ensures
        heap_scoped(p),
{
    assert forall|i: int, n: Seq<char>|
        0 <= i < p.frames@.len() && #[trigger] p.frames@[i].bindings().contains_key(n) implies {
        ||| value_scoped(p, p.frames@[i].bindings()[n])
        ||| {
            &&& i < h.frames@.len()
            &&& h.frames@[i].bindings().contains_key(n)
            &&& h.frames@[i].bindings()[n] == p.frames@[i].bindings()[n]
        }
    } by {
        if i != at {
            assert(p.frames@[i] == h.frames@[i]);
        }
    }
    lemma_heap_scoped_on(h, p);
}

/// A new frame with scoped bindings leaves the heap scoped.
proof fn lemma_pushed_scoped<'a>(
    h: Heap<'a>,
    p: Heap<'a>,
    parent: Option<usize>,
    bindings: Map<Seq<char>, LoxValue>,
)
    requires
        h.well_formed(),
        heap_scoped(h),
        kept(h, p),
        frame_pushed(h.frames@, p.frames@, parent, bindings),
        p.callables == h.callables,
        p.instances == h.instances,
        values_scoped(p, bindings),
    ensures
        heap_scoped(p),
{
    assert forall|i: int, n: Seq<char>|
        0 <= i < p.frames@.len() && #[trigger] p.frames@[i].bindings().contains_key(n) implies {
        ||| value_scoped(p, p.frames@[i].bindings()[n])
        ||| {
            &&& i < h.frames@.len()
            &&& h.frames@[i].bindings().contains_key(n)
            &&& h.frames@[i].bindings()[n] == p.frames@[i].bindings()[n]
        }
    } by {
        if i < h.frames@.len() {
            assert(p.frames@.drop_last()[i] == h.frames@[i]);
        }
    }
    lemma_heap_scoped_on(h, p);
}

/// Binding a method that is scoped as a method leaves the heap scoped and
/// gives a function that can be called.
proof fn lemma_bound_scoped<'a>(
    h: Heap<'a>,
    p: Heap<'a>,
    method: usize,
    instance: usize,
    result: LoxValue,
)
    requires
        h.well_formed(),
        heap_scoped(h),
        kept(h, p),
        method < h.callables@.len(),
        bound(h, p, method, instance, result),
        body_scoped(h.frames@, h.callables@[method as int], 2),
    ensures
        heap_scoped(p),
        value_scoped(p, result),
{
    lemma_heap_linked(h);
    assert(h.callable_ok(method as int));
    assert(h.callables@.len() == h.callables.len());
    assert(h.frames@.len() == h.frames.len());
    match h.callables@[method as int] {
        LoxCallable::Function { declaration, closure, is_initializer } => {
            let this = Map::<Seq<char>, LoxValue>::empty().insert(
                "this"@,
                LoxValue::Instance(instance),
            );
            lemma_pushed_depth(h.frames@, p.frames@, Some(closure), this);
            assert forall|i: int, n: Seq<char>|
                0 <= i < p.frames@.len() && #[trigger] p.frames@[i].bindings().contains_key(
                    n,
                ) implies {
                ||| value_scoped(p, p.frames@[i].bindings()[n])
                ||| {
                    &&& i < h.frames@.len()
                    &&& h.frames@[i].bindings().contains_key(n)
                    &&& h.frames@[i].bindings()[n] == p.frames@[i].bindings()[n]
                }
            } by {
                if i < h.frames@.len() {
                    assert(p.frames@.drop_last()[i] == h.frames@[i]);
                }
            }
            lemma_heap_scoped_on(h, p);
        },
        _ => {},
    }
}

/// Setting a field to a scoped value leaves the heap scoped.
proof fn lemma_field_scoped<'a>(
    h: Heap<'a>,
    p: Heap<'a>,
    instance: usize,
    name: Seq<char>,
    value: LoxValue,
)
    requires
        h.well_formed(),
        heap_scoped(h),
        kept(h, p),
        instance < h.instances@.len(),
        p.frames == h.frames,
        p.callables == h.callables,
        p.instances@.len() == h.instances@.len(),
        p.instances@[instance as int].fields@ == h.instances@[instance as int].fields@.insert(
            name,
            value,
        ),
        forall|k: int|
            0 <= k < h.instances@.len() && k != instance ==> p.instances@[k] == h.instances@[k],
        value_scoped(p, value),
    ensures
        heap_scoped(p),
{
    assert forall|k: int, n: Seq<char>|
        0 <= k < p.instances@.len() && #[trigger] p.instances@[k].fields@.contains_key(
            n,
        ) implies {
        ||| value_scoped(p, p.instances@[k].fields@[n])
        ||| {
            &&& k < h.instances@.len()
            &&& h.instances@[k].fields@.contains_key(n)
            &&& h.instances@[k].fields@[n] == p.instances@[k].fields@[n]
        }
    } by {
        if k != instance {
            assert(p.instances@[k] == h.instances@[k]);
        }
    }
    lemma_heap_scoped_on(h, p);
}

/// What it is for an expression to be scoped, by its kind.
proof fn lemma_expr_scoped(expr: Expr, depth: nat)
    ensures
        expr_scoped(expr, depth) == match expr {
            Expr::Binary { left, right, .. } => expr_scoped(*left, depth) && expr_scoped(
                *right,
                depth,
            ),
            Expr::Logical { left, right, .. } => expr_scoped(*left, depth) && expr_scoped(
                *right,
                depth,
            ),
            Expr::Grouping { expression } => expr_scoped(*expression, depth),
            Expr::Literal { .. } => true,
            Expr::Unary { right, .. } => expr_scoped(*right, depth),
            Expr::Variable { depth: distance, .. } => match distance {
                Some(d) => d <= depth,
                None => true,
            },
            Expr::Assign { value, depth: distance, .. } => expr_scoped(*value, depth)
                && match distance {
                Some(d) => d <= depth,
                None => true,
            },
            Expr::Conditional { condition, then_branch, else_branch } => expr_scoped(
                *condition,
                depth,
            ) && expr_scoped(*then_branch, depth) && expr_scoped(*else_branch, depth),
            Expr::Call { callee, arguments, .. } => expr_scoped(*callee, depth) && exprs_scoped(
                arguments@,
                depth,
            ),
            Expr::Get { object, .. } => expr_scoped(*object, depth),
            Expr::SetProperty { object, value, .. } => expr_scoped(*object, depth) && expr_scoped(
                *value,
                depth,
            ),
            Expr::This { depth: distance, .. } => distance <= depth,
            Expr::Super { depth: distance, .. } => distance <= depth,
        },
{
    reveal(expr_scoped);
}

/// What it is for a statement to be scoped, by its kind.
proof fn lemma_stmt_scoped(stmt: Stmt, depth: nat)
    ensures
        stmt_scoped(stmt, depth) == match stmt {
            Stmt::Block { statements } => stmts_scoped(statements@, depth + 1),
            Stmt::Class { superclass, methods, .. } => {
                &&& match superclass {
                    Some(clause) => expr_scoped(clause, depth),
                    None => true,
                }
                &&& methods_scoped(
                    methods@,
                    depth + if superclass is Some {
                        3nat
                    } else {
                        2nat
                    },
                )
            },
            Stmt::Expression { expr } => expr_scoped(expr, depth),
            Stmt::Function { body, .. } => stmts_scoped(body@, depth + 1),
            Stmt::If { condition, then_branch, else_branch } => expr_scoped(condition, depth)
                && stmt_scoped(*then_branch, depth) && match else_branch {
                Some(otherwise) => stmt_scoped(*otherwise, depth),
                None => true,
            },
            Stmt::While { condition, body } => expr_scoped(condition, depth) && stmt_scoped(
                *body,
                depth,
            ),
            Stmt::Print { expr } => expr_scoped(expr, depth),
            Stmt::Return { value, .. } => match value {
                Some(result) => expr_scoped(result, depth),
                None => true,
            },
            Stmt::Var { initializer, .. } => match initializer {
                Some(value) => expr_scoped(value, depth),
                None => true,
            },
        },
{
    reveal(stmt_scoped);
}

/// The outermost frame of a frame is a frame.
proof fn lemma_outermost_is_frame(frames: Seq<Environment>, frame: int)
    requires
        linked(frames),
        0 <= frame < frames.len(),
    ensures
        0 <= outermost(frames, frame) < frames.len(),
    decreases frame,
{
    match frames[frame].parent() {
        Some(p) => lemma_outermost_is_frame(frames, p as int),
        None => {},
    }
}

/// A scoped distance leads to a frame of the heap.
proof fn lemma_target_is_frame(heap: Heap, frame: usize, distance: Option<usize>)
    requires
        heap.well_formed(),
        frame < heap.frames@.len(),
        match distance {
            Some(d) => d <= depth_of(heap.frames@, frame as int),
            None => true,
        },
    ensures
        target(heap.frames@, frame as int, distance) matches Some(at) && 0 <= at
            < heap.frames@.len(),
{
    lemma_heap_linked(heap);
    match distance {
        Some(d) => lemma_within_depth_reaches(heap.frames@, frame as int, d as nat),
        None => lemma_outermost_is_frame(heap.frames@, frame as int),
    }
}

/// Tasks with one more scoped task are scoped.
proof fn lemma_tasks_scoped_push<'a>(heap: Heap<'a>, tasks: Seq<Task<'a>>, task: Task<'a>)
    requires
        tasks_scoped(heap, tasks),
        task_scoped(heap, task),
    ensures
        tasks_scoped(heap, tasks.push(task)),
{
    assert forall|i: int| 0 <= i < tasks.push(task).len() implies task_scoped(
        heap,
        #[trigger] tasks.push(task)[i],
    ) by {
        if i < tasks.len() {
            assert(task_scoped(heap, tasks[i]));
        }
    }
}

/// Tasks without the innermost one are scoped, and so is the innermost one.
proof fn lemma_tasks_scoped_pop<'a>(heap: Heap<'a>, tasks: Seq<Task<'a>>)
    requires
        tasks_scoped(heap, tasks),
        tasks_ok(heap, tasks),
        tasks.len() > 0,
    ensures
        tasks_scoped(heap, tasks.drop_last()),
        tasks_ok(heap, tasks.drop_last()),
        task_scoped(heap, tasks.last()),
        task_ok(heap, tasks.last()),
{
    assert forall|i: int| 0 <= i < tasks.drop_last().len() implies task_scoped(
        heap,
        #[trigger] tasks.drop_last()[i],
    ) && task_ok(heap, tasks.drop_last()[i]) by {
        assert(task_scoped(heap, tasks[i]));
        assert(task_ok(heap, tasks[i]));
    }
}

/// Looking a name up at a scoped distance finds a frame, and what it finds
/// there is scoped.
proof fn lemma_looked_up_scoped<'a>(
    h: Heap<'a>,
    t: Seq<Task<'a>>,
    environment: usize,
    distance: Option<usize>,
    name: Token,
    post: Interpreter<'a>,
    action: Action,
)
    requires
        h.well_formed(),
        heap_scoped(h),
        tasks_scoped(h, t),
        environment < h.frames@.len(),
        match distance {
            Some(d) => d <= depth_of(h.frames@, environment as int),
            None => true,
        },
        looked_up(h, t, environment, distance, name, post, action),
    ensures
        machine_scoped(post),
        !(action matches Action::Fault(Fault::ScopeDistance)),
{
    lemma_target_is_frame(h, environment, distance);
    let at = target(h.frames@, environment as int, distance).unwrap();
    assert(values_scoped(h, h.frames@[at].bindings()));
}

/// `super.method` at a scoped distance finds its frames, unless the distance
/// is zero, and what it comes to is scoped.
proof fn lemma_super_looked_up_scoped<'a>(
    h: Heap<'a>,
    t: Seq<Task<'a>>,
    environment: usize,
    keyword: Token,
    method: Token,
    depth: usize,
    post: Interpreter<'a>,
    action: Action,
)
    requires
        h.well_formed(),
        heap_scoped(h),
        tasks_scoped(h, t),
        tasks_ok(h, t),
        environment < h.frames@.len(),
        depth <= depth_of(h.frames@, environment as int),
        super_looked_up(h, t, environment, keyword, method, depth, post, action),
        kept(h, post.heap()),
    ensures
        machine_scoped(post),
        action matches Action::Fault(Fault::ScopeDistance) ==> depth == 0,
{
    lemma_target_is_frame(h, environment, Some(depth));
    let outer = target(h.frames@, environment as int, Some(depth)).unwrap();
    if h.frames@[outer].bindings().contains_key(keyword.lexeme@) {
        match h.frames@[outer].bindings()[keyword.lexeme@] {
            LoxValue::Callable(class) => {
                if h.is_class(class) && depth != 0 {
                    lemma_target_is_frame(h, environment, Some((depth - 1) as usize));
                    let inner = target(
                        h.frames@,
                        environment as int,
                        Some((depth - 1) as usize),
                    ).unwrap();
                    if h.frames@[inner].bindings().contains_key(this_name()) {
                        match h.frames@[inner].bindings()[this_name()] {
                            LoxValue::Instance(instance) => {
                                match method_of(h.callables@, class as int, method.lexeme@) {
                                    Some(m) => {
                                        lemma_method_scoped(h, class as int, method.lexeme@);
                                        lemma_bound_scoped(
                                            h,
                                            post.heap(),
                                            m,
                                            instance,
                                            post.control()->Value_0,
                                        );
                                        lemma_kept_tasks(h, post.heap(), t);
                                    },
                                    None => {},
                                }
                            },
                            _ => {},
                        }
                    }
                }
            },
            _ => {},
        }
    }
}

/// Beginning to evaluate a scoped expression keeps the machine scoped, and
/// finds a frame at every distance, unless it is a `super` at distance zero.
proof fn lemma_evaluated_scoped<'a>(
    h: Heap<'a>,
    t: Seq<Task<'a>>,
    expression: &'a Expr,
    environment: usize,
    post: Interpreter<'a>,
    action: Action,
)
    requires
        h.well_formed(),
        heap_scoped(h),
        tasks_scoped(h, t),
        tasks_ok(h, t),
        environment < h.frames@.len(),
        expr_scoped(*expression, depth_of(h.frames@, environment as int)),
        evaluated(h, t, expression, environment, post, action),
        kept(h, post.heap()),
    ensures
        machine_scoped(post),
        action matches Action::Fault(Fault::ScopeDistance) ==> *expression matches Expr::Super {
            depth,
            ..
        } && depth == 0,
{
    let d = depth_of(h.frames@, environment as int);
    lemma_expr_scoped(*expression, d);
    match expression {
        Expr::Literal { .. } => {},
        Expr::Grouping { .. } => {},
        Expr::Unary { operator, .. } => {
            lemma_tasks_scoped_push(h, t, Task::Unary { operator });
        },
        Expr::Binary { operator, right, .. } => {
            lemma_tasks_scoped_push(h, t, Task::BinaryRight { operator, right: &**right, environment });
        },
        Expr::Variable { name, depth } => {
            lemma_looked_up_scoped(h, t, environment, *depth, *name, post, action);
        },
        Expr::Assign { name, depth, .. } => {
            lemma_tasks_scoped_push(h, t, Task::Assign { name, depth: *depth, environment });
        },
        Expr::Conditional { then_branch, else_branch, .. } => {
            lemma_tasks_scoped_push(
                h,
                t,
                Task::Choose {
                    then_branch: &**then_branch,
                    else_branch: &**else_branch,
                    environment,
                },
            );
        },
        Expr::Logical { operator, right, .. } => {
            lemma_tasks_scoped_push(h, t, Task::Logical { operator, right: &**right, environment });
        },
        Expr::Call { closing_paren, arguments, .. } => {
            lemma_tasks_scoped_push(h, t, Task::Callee { arguments, closing_paren, environment });
        },
        Expr::Get { name, .. } => {
            lemma_tasks_scoped_push(h, t, Task::Get { name });
        },
        Expr::SetProperty { name, value, .. } => {
            lemma_tasks_scoped_push(h, t, Task::SetObject { name, value: &**value, environment });
        },
        Expr::This { keyword, depth } => {
            lemma_looked_up_scoped(h, t, environment, Some(*depth), *keyword, post, action);
        },
        Expr::Super { keyword, method, depth } => {
            lemma_super_looked_up_scoped(
                h,
                t,
                environment,
                *keyword,
                *method,
                *depth,
                post,
                action,
            );
        },
    }
}

/// Every entry of a method table leads to the function of a member of the
/// class body.
proof fn lemma_method_table(methods: Seq<Stmt>, upto: nat, base: nat, name: Seq<char>)
    requires
        upto <= methods.len(),
        base + methods.len() <= usize::MAX,
        method_table(methods, upto, base).contains_key(name),
    ensures
        exists|i: int|
            0 <= i < upto && (#[trigger] methods[i]) is Function && method_table(
                methods,
                upto,
                base,
            )[name] == base + i,
    decreases upto,
{
    if upto > 0 {
        match methods[upto - 1] {
            Stmt::Function { name: member, .. } => {
                if member.lexeme@ == name {
                    assert(methods[upto - 1] is Function);
                } else {
                    lemma_method_table(methods, (upto - 1) as nat, base, name);
                    let i = choose|i: int|
                        0 <= i < upto - 1 && (#[trigger] methods[i]) is Function && method_table(
                            methods,
                            (upto - 1) as nat,
                            base,
                        )[name] == base + i;
                    assert(methods[i] is Function);
                }
            },
            _ => {
                lemma_method_table(methods, (upto - 1) as nat, base, name);
                let i = choose|i: int|
                    0 <= i < upto - 1 && (#[trigger] methods[i]) is Function && method_table(
                        methods,
                        (upto - 1) as nat,
                        base,
                    )[name] == base + i;
                assert(methods[i] is Function);
            },
        }
    }
}

/// Going on with a statement of a scoped list keeps the machine scoped.
proof fn lemma_sequenced_scoped<'a>(
    p: Heap<'a>,
    t: Seq<Task<'a>>,
    statements: &'a Vec<Stmt>,
    index: usize,
    environment: usize,
    post: Interpreter<'a>,
)
    requires
        heap_scoped(p),
        tasks_scoped(p, t),
        post.heap() == p,
        stmts_scoped(statements@, depth_of(p.frames@, environment as int)),
        sequenced(t, statements, index, environment, post),
    ensures
        machine_scoped(post),
{
    if index < statements@.len() {
        lemma_tasks_scoped_push(
            p,
            t,
            Task::Sequence { statements, next: (index + 1) as usize, environment },
        );
    }
}

/// Making a class whose methods are scoped keeps the machine scoped.
proof fn lemma_class_made_scoped<'a>(
    h: Heap<'a>,
    t: Seq<Task<'a>>,
    name: &'a Token,
    superclass: Option<usize>,
    methods: &'a Vec<Stmt>,
    environment: usize,
    post: Interpreter<'a>,
    action: Action,
)
    requires
        h.well_formed(),
        post.heap().well_formed(),
        heap_scoped(h),
        tasks_scoped(h, t),
        tasks_ok(h, t),
        environment < h.frames@.len(),
        match superclass {
            Some(s) => h.is_class(s),
            None => true,
        },
        methods_scoped(
            methods@,
            depth_of(h.frames@, environment as int) + if superclass is Some {
                3nat
            } else {
                2nat
            },
        ),
        class_made(h, t, name, superclass, methods, environment, post, action),
        kept(h, post.heap()),
    ensures
        machine_scoped(post),
        !(action matches Action::Fault(Fault::ScopeDistance)),
{
    if all_functions(methods@) {
        let p = post.heap();
        let base = h.callables@.len();
        let made = base + methods@.len();
        let d = depth_of(h.frames@, environment as int);
        assert(p.callables@.len() == p.callables.len());
        lemma_kept_depth(h, p, environment as int);
        lemma_kept_tasks(h, p, t);
        assert(h.frames@.len() == h.frames.len());
        let closure = if superclass is Some {
            h.frames@.len() as usize
        } else {
            environment
        };
        if superclass is Some {
            assert(p.frames@[h.frames@.len() as int] == p.frames@.last());
            assert(depth_of(p.frames@, h.frames@.len() as int) == depth_of(
                p.frames@,
                environment as int,
            ) + 1);
        }
        assert(depth_of(p.frames@, closure as int) + 2 == d + if superclass is Some {
            3nat
        } else {
            2nat
        });
        assert forall|i: int, n: Seq<char>|
            0 <= i < p.frames@.len() && #[trigger] p.frames@[i].bindings().contains_key(
                n,
            ) implies {
            ||| value_scoped(p, p.frames@[i].bindings()[n])
            ||| {
                &&& i < h.frames@.len()
                &&& h.frames@[i].bindings().contains_key(n)
                &&& h.frames@[i].bindings()[n] == p.frames@[i].bindings()[n]
            }
        } by {
            match superclass {
                Some(sup) => {
                    if i < h.frames@.len() {
                        assert(p.frames@[i] == p.frames@.drop_last()[i]);
                        if i != environment {
                            assert(p.frames@.drop_last()[i] == h.frames@[i]);
                        }
                    } else {
                        assert(p.callables@[sup as int] == h.callables@[sup as int]);
                    }
                },
                None => {
                    if i != environment {
                        assert(p.frames@[i] == h.frames@[i]);
                    }
                },
            }
        }
        assert forall|c: int|
            h.callables@.len() <= c < p.callables@.len() implies match #[trigger] p.callables@[c] {
            LoxCallable::Class { class } => class_scoped(p, class),
            _ => true,
        } by {
            if c < made {
                assert(p.callables@[base + (c - base)] == declared_function(
                    &methods@[c - base],
                    closure,
                    true,
                ));
                assert(methods@[c - base] is Function);
            } else {
                match p.callables@[c] {
                    LoxCallable::Class { class } => {
                        assert forall|n: Seq<char>| #[trigger]
                            class.methods@.contains_key(n) && class.methods@[n]
                                < p.callables@.len() implies body_scoped(
                            p.frames@,
                            p.callables@[class.methods@[n] as int],
                            2,
                        ) by {
                            lemma_method_table(methods@, methods@.len(), base, n);
                            let i = choose|i: int|
                                0 <= i < methods@.len() && (#[trigger] methods@[i]) is Function
                                    && method_table(methods@, methods@.len(), base)[n] == base
                                    + i;
                            assert(p.callables@[base + i] == declared_function(
                                &methods@[i],
                                closure,
                                true,
                            ));
                        }
                    },
                    _ => {},
                }
            }
        }
        lemma_heap_scoped_on(h, p);
    }
}

/// Beginning to execute a scoped statement keeps the machine scoped.
proof fn lemma_executed_scoped<'a>(
    h: Heap<'a>,
    t: Seq<Task<'a>>,
    statement: &'a Stmt,
    environment: usize,
    post: Interpreter<'a>,
    action: Action,
)
    requires
        h.well_formed(),
        post.heap().well_formed(),
        heap_scoped(h),
        tasks_scoped(h, t),
        tasks_ok(h, t),
        environment < h.frames@.len(),
        stmt_scoped(*statement, depth_of(h.frames@, environment as int)),
        executed(h, t, statement, environment, post, action),
        kept(h, post.heap()),
    ensures
        machine_scoped(post),
        !(action matches Action::Fault(Fault::ScopeDistance)),
{
    let d = depth_of(h.frames@, environment as int);
    let p = post.heap();
    lemma_stmt_scoped(*statement, d);
    lemma_heap_linked(h);
    match statement {
        Stmt::Expression { .. } => {
            lemma_tasks_scoped_push(h, t, Task::Discard);
        },
        Stmt::Print { .. } => {
            lemma_tasks_scoped_push(h, t, Task::Print);
        },
        Stmt::Var { name, initializer } => {
            match initializer {
                Some(_) => {
                    lemma_tasks_scoped_push(h, t, Task::Define { name, environment });
                },
                None => {
                    lemma_rebound_scoped(h, p, environment as int, name.lexeme@, LoxValue::Nil);
                    lemma_kept_tasks(h, p, t);
                },
            }
        },
        Stmt::Block { statements } => {
            lemma_pushed_scoped(h, p, Some(environment), Map::empty());
            lemma_kept_tasks(h, p, t);
            lemma_pushed_depth(h.frames@, p.frames@, Some(environment), Map::empty());
            assert(h.frames@.len() == h.frames.len());
            lemma_sequenced_scoped(p, t, statements, 0, h.frames@.len() as usize, post);
        },
        Stmt::If { then_branch, else_branch, .. } => {
            lemma_tasks_scoped_push(
                h,
                t,
                Task::Branch {
                    then_branch: &**then_branch,
                    else_branch: match else_branch {
                        Some(otherwise) => Some(&**otherwise),
                        None => None,
                    },
                    environment,
                },
            );
        },
        Stmt::While { condition, body } => {
            lemma_tasks_scoped_push(h, t, Task::LoopTest { condition, body: &**body, environment });
        },
        Stmt::Function { name, .. } => {
            assert(h.callables@.len() == h.callables.len());
            lemma_kept_depth(h, p, environment as int);
            lemma_kept_tasks(h, p, t);
            assert forall|i: int, n: Seq<char>|
                0 <= i < p.frames@.len() && #[trigger] p.frames@[i].bindings().contains_key(
                    n,
                ) implies {
                ||| value_scoped(p, p.frames@[i].bindings()[n])
                ||| {
                    &&& i < h.frames@.len()
                    &&& h.frames@[i].bindings().contains_key(n)
                    &&& h.frames@[i].bindings()[n] == p.frames@[i].bindings()[n]
                }
            } by {
                if i != environment {
                    assert(p.frames@[i] == h.frames@[i]);
                }
            }
            lemma_heap_scoped_on(h, p);
        },
        Stmt::Return { value, .. } => {
            if value is Some {
                lemma_tasks_scoped_push(h, t, Task::Return);
            }
        },
        Stmt::Class { name, superclass, methods } => {
            match superclass {
                Some(clause) => {
                    lemma_rebound_scoped(h, p, environment as int, name.lexeme@, LoxValue::Nil);
                    lemma_kept_tasks(h, p, t);
                    lemma_kept_depth(h, p, environment as int);
                    lemma_tasks_scoped_push(
                        p,
                        t,
                        Task::Superclass { name, clause, methods, environment },
                    );
                },
                None => {
                    lemma_class_made_scoped(h, t, name, None, methods, environment, post, action);
                },
            }
        },
    }
}

/// Every parameter is bound to one of the arguments.
proof fn lemma_parameters(params: Seq<Token>, arguments: Seq<LoxValue>, upto: nat, name: Seq<char>)
    requires
        parameters(params, arguments, upto).contains_key(name),
    ensures
        exists|i: int|
            0 <= i < arguments.len() && parameters(params, arguments, upto)[name]
                == #[trigger] arguments[i],
    decreases upto,
{
    if !(upto == 0 || upto > params.len() || upto > arguments.len()) {
        if params[upto - 1].lexeme@ != name {
            lemma_parameters(params, arguments, (upto - 1) as nat, name);
        }
    }
}

/// Calling a scoped callable with scoped arguments keeps the machine scoped.
proof fn lemma_called_scoped<'a>(
    h: Heap<'a>,
    t: Seq<Task<'a>>,
    callable: usize,
    arguments: Seq<LoxValue>,
    call_token: Token,
    post: Interpreter<'a>,
    action: Action,
)
    requires
        h.well_formed(),
        post.heap().well_formed(),
        heap_scoped(h),
        tasks_scoped(h, t),
        tasks_ok(h, t),
        callable < h.callables@.len(),
        value_scoped(h, LoxValue::Callable(callable)),
        forall|i: int|
            0 <= i < arguments.len() ==> value_scoped(h, #[trigger] arguments[i]) && h.value_ok(
                arguments[i],
            ),
        called(h, t, callable, arguments, call_token, post, action),
        kept(h, post.heap()),
    ensures
        machine_scoped(post),
        !(action matches Action::Fault(Fault::ScopeDistance)),
{
    let p = post.heap();
    lemma_heap_linked(h);
    assert(h.callable_ok(callable as int));
    assert(h.frames@.len() == h.frames.len());
    assert(h.instances@.len() == h.instances.len());
    if arity_of(h.callables@, callable as int) == arguments.len() {
        match h.callables@[callable as int] {
            LoxCallable::ClockFunction => {},
            LoxCallable::Function { declaration, closure, is_initializer } => {
                let bindings = parameters(declaration.params@, arguments, arguments.len());
                assert forall|n: Seq<char>| #[trigger] bindings.contains_key(n) implies value_scoped(
                    p,
                    bindings[n],
                ) by {
                    lemma_parameters(declaration.params@, arguments, arguments.len(), n);
                    let i = choose|i: int|
                        0 <= i < arguments.len() && bindings[n] == #[trigger] arguments[i];
                    lemma_kept_value(h, p, arguments[i]);
                }
                lemma_pushed_scoped(h, p, Some(closure), bindings);
                lemma_pushed_depth(h.frames@, p.frames@, Some(closure), bindings);
                lemma_kept_tasks(h, p, t);
                let boundary = Task::Call { is_initializer, closure, line: call_token.line };
                lemma_tasks_scoped_push(p, t, boundary);
                lemma_sequenced_scoped(
                    p,
                    t.push(boundary),
                    declaration.body,
                    0,
                    h.frames@.len() as usize,
                    post,
                );
            },
            LoxCallable::Class { .. } => {
                lemma_kept_tasks(h, p, t);
                assert forall|k: int, n: Seq<char>|
                    0 <= k < p.instances@.len() && #[trigger] p.instances@[k].fields@.contains_key(
                        n,
                    ) implies {
                    ||| value_scoped(p, p.instances@[k].fields@[n])
                    ||| {
                        &&& k < h.instances@.len()
                        &&& h.instances@[k].fields@.contains_key(n)
                        &&& h.instances@[k].fields@[n] == p.instances@[k].fields@[n]
                    }
                } by {
                    if k < h.instances@.len() {
                        assert(p.instances@.drop_last()[k] == h.instances@[k]);
                    }
                }
                match method_of(h.callables@, callable as int, "init"@) {
                    None => {
                        lemma_heap_scoped_on(h, p);
                    },
                    Some(initializer) => {
                        lemma_method_scoped(h, callable as int, "init"@);
                        assert(h.callable_ok(initializer as int));
                        match h.callables@[initializer as int] {
                            LoxCallable::Function { declaration, closure, is_initializer } => {
                                let instance = h.instances@.len() as usize;
                                let binding = h.frames@.len() as usize;
                                let bindings = parameters(
                                    declaration.params@,
                                    arguments,
                                    arguments.len(),
                                );
                                assert forall|i: int| 0 <= i < h.frames@.len() implies (
                                #[trigger] p.frames@[i]) == h.frames@[i] by {
                                    assert(p.frames@.subrange(0, h.frames@.len() as int)[i]
                                        == h.frames@[i]);
                                }
                                assert(p.frames@.len() == p.frames.len());
                                assert(p.frames@[binding + 1] == p.frames@.last());
                                lemma_kept_depth(h, p, closure as int);
                                assert(depth_of(p.frames@, binding as int) == depth_of(
                                    h.frames@,
                                    closure as int,
                                ) + 1);
                                assert(depth_of(p.frames@, binding + 1) == depth_of(
                                    h.frames@,
                                    closure as int,
                                ) + 2);
                                assert forall|i: int, n: Seq<char>|
                                    0 <= i < p.frames@.len()
                                        && #[trigger] p.frames@[i].bindings().contains_key(
                                        n,
                                    ) implies {
                                    ||| value_scoped(p, p.frames@[i].bindings()[n])
                                    ||| {
                                        &&& i < h.frames@.len()
                                        &&& h.frames@[i].bindings().contains_key(n)
                                        &&& h.frames@[i].bindings()[n]
                                            == p.frames@[i].bindings()[n]
                                    }
                                } by {
                                    if i == binding + 1 {
                                        lemma_parameters(
                                            declaration.params@,
                                            arguments,
                                            arguments.len(),
                                            n,
                                        );
                                        let j = choose|j: int|
                                            0 <= j < arguments.len() && bindings[n]
                                                == #[trigger] arguments[j];
                                        lemma_kept_value(h, p, arguments[j]);
                                    }
                                }
                                lemma_heap_scoped_on(h, p);
                                let construct = Task::Construct { instance };
                                let boundary = Task::Call {
                                    is_initializer,
                                    closure: binding,
                                    line: call_token.line,
                                };
                                lemma_tasks_scoped_push(p, t, construct);
                                lemma_tasks_scoped_push(p, t.push(construct), boundary);
                                lemma_sequenced_scoped(
                                    p,
                                    t.push(construct).push(boundary),
                                    declaration.body,
                                    0,
                                    (binding + 1) as usize,
                                    post,
                                );
                            },
                            _ => {},
                        }
                    },
                }
            },
        }
    }
}

/// Taking an argument of a call, and calling once every argument is there,
/// keeps the machine scoped.
proof fn lemma_argument_taken_scoped<'a>(
    h: Heap<'a>,
    t: Seq<Task<'a>>,
    callee: LoxValue,
    arguments: &'a Vec<Expr>,
    evaluated: Seq<LoxValue>,
    closing_paren: &'a Token,
    environment: usize,
    post: Interpreter<'a>,
    action: Action,
)
    requires
        h.well_formed(),
        post.heap().well_formed(),
        heap_scoped(h),
        tasks_scoped(h, t),
        tasks_ok(h, t),
        environment < h.frames@.len(),
        exprs_scoped(arguments@, depth_of(h.frames@, environment as int)),
        value_scoped(h, callee),
        h.value_ok(callee),
        forall|i: int|
            0 <= i < evaluated.len() ==> value_scoped(h, #[trigger] evaluated[i]) && h.value_ok(
                evaluated[i],
            ),
        argument_taken(
            h,
            t,
            callee,
            arguments,
            evaluated,
            closing_paren,
            environment,
            post,
            action,
        ),
        kept(h, post.heap()),
    ensures
        machine_scoped(post),
        !(action matches Action::Fault(Fault::ScopeDistance)),
{
    if evaluated.len() < arguments@.len() {
        assert forall|i: int| 0 <= i < post.tasks().len() implies task_scoped(
            h,
            #[trigger] post.tasks()[i],
        ) by {
            if i < t.len() {
                assert(post.tasks().drop_last()[i] == t[i]);
                assert(task_scoped(h, t[i]));
            } else {
                assert(post.tasks()[i] == post.tasks().last());
            }
        }
    } else {
        match callee {
            LoxValue::Callable(callable) => {
                lemma_called_scoped(h, t, callable, evaluated, *closing_paren, post, action);
            },
            _ => {},
        }
    }
}

/// The result of a function body at the boundary of its call is scoped.
proof fn lemma_call_returned_scoped<'a>(
    h: Heap<'a>,
    t: Seq<Task<'a>>,
    is_initializer: bool,
    closure: usize,
    line: usize,
    value: LoxValue,
    post: Interpreter<'a>,
    action: Action,
)
    requires
        h.well_formed(),
        heap_scoped(h),
        tasks_scoped(h, t),
        closure < h.frames@.len(),
        value_scoped(h, value),
        call_returned(h, t, is_initializer, closure, line, value, post, action),
    ensures
        machine_scoped(post),
        !(action matches Action::Fault(Fault::ScopeDistance)),
{
    assert(values_scoped(h, h.frames@[closure as int].bindings()));
}

/// Handing a scoped value to the innermost task keeps the machine scoped.
proof fn lemma_delivered_scoped<'a>(
    h: Heap<'a>,
    all: Seq<Task<'a>>,
    value: LoxValue,
    post: Interpreter<'a>,
    action: Action,
)
    requires
        h.well_formed(),
        post.heap().well_formed(),
        heap_scoped(h),
        tasks_scoped(h, all),
        tasks_ok(h, all),
        value_scoped(h, value),
        h.value_ok(value),
        delivered(h, all, value, post, action),
        kept(h, post.heap()),
    ensures
        machine_scoped(post),
        !(action matches Action::Fault(Fault::ScopeDistance)),
{
    if all.len() > 0 {
        let t = all.drop_last();
        let p = post.heap();
        lemma_tasks_scoped_pop(h, all);
        lemma_heap_linked(h);
        match all.last() {
            Task::Print => {
                match value {
                    LoxValue::Number(_) => {
                        lemma_tasks_scoped_push(h, t, Task::PrintText);
                    },
                    _ => {},
                }
            },
            Task::Define { name, environment } => {
                lemma_kept_value(h, p, value);
                lemma_rebound_scoped(h, p, environment as int, name.lexeme@, value);
                lemma_kept_tasks(h, p, t);
            },
            Task::LoopTest { condition, body, environment } => {
                lemma_tasks_scoped_push(h, t, Task::LoopBody { condition, body, environment });
            },
            Task::Superclass { name, clause, methods, environment } => {
                if value matches LoxValue::Callable(c) && h.is_class(c) {
                    lemma_class_made_scoped(
                        h,
                        t,
                        name,
                        Some(value->Callable_0),
                        methods,
                        environment,
                        post,
                        action,
                    );
                }
            },
            Task::BinaryRight { operator, right, environment } => {
                lemma_tasks_scoped_push(h, t, Task::BinaryApply { operator, left: value });
            },
            Task::BinaryApply { operator, left } => {
                match (left, value) {
                    (LoxValue::String(l), LoxValue::Number(_)) => {
                        lemma_tasks_scoped_push(h, t, Task::JoinAfter { left: l });
                    },
                    (LoxValue::Number(_), LoxValue::String(r)) => {
                        lemma_tasks_scoped_push(h, t, Task::JoinBefore { right: r });
                    },
                    _ => {},
                }
            },
            Task::Assign { name, depth, environment } => {
                lemma_target_is_frame(h, environment, depth);
                let at = target(h.frames@, environment as int, depth).unwrap();
                if h.frames@[at].bindings().contains_key(name.lexeme@) {
                    lemma_kept_value(h, p, value);
                    lemma_rebound_scoped(h, p, at, name.lexeme@, value);
                    lemma_kept_tasks(h, p, t);
                }
            },
            Task::Callee { arguments, closing_paren, environment } => {
                lemma_argument_taken_scoped(
                    h,
                    t,
                    value,
                    arguments,
                    Seq::empty(),
                    closing_paren,
                    environment,
                    post,
                    action,
                );
            },
            Task::Argument { callee, arguments, evaluated, closing_paren, environment } => {
                lemma_argument_taken_scoped(
                    h,
                    t,
                    callee,
                    arguments,
                    evaluated@.push(value),
                    closing_paren,
                    environment,
                    post,
                    action,
                );
            },
            Task::Get { name } => {
                match value {
                    LoxValue::Instance(k) => {
                        assert(h.instance_ok(k as int));
                        let instance = h.instances@[k as int];
                        assert(values_scoped(h, instance.fields@));
                        if !instance.fields@.contains_key(name.lexeme@) {
                            match method_of(h.callables@, instance.klass as int, name.lexeme@) {
                                Some(method) => {
                                    lemma_method_scoped(h, instance.klass as int, name.lexeme@);
                                    lemma_bound_scoped(h, p, method, k, post.control()->Value_0);
                                    lemma_kept_tasks(h, p, t);
                                },
                                None => {},
                            }
                        }
                    },
                    _ => {},
                }
            },
            Task::SetObject { name, value: stored, environment } => {
                match value {
                    LoxValue::Instance(instance) => {
                        lemma_tasks_scoped_push(h, t, Task::SetValue { instance, name });
                    },
                    _ => {},
                }
            },
            Task::SetValue { instance, name } => {
                lemma_kept_value(h, p, value);
                lemma_field_scoped(h, p, instance, name.lexeme@, value);
                lemma_kept_tasks(h, p, t);
            },
            _ => {},
        }
    }
}

/// A scoped machine stays scoped, and every scope distance that it follows
/// leads to a frame, except that of a `super` at distance zero, which has no
/// frame further in for `this`. Since the resolver leaves what it accepts
/// scoped, a run of what the resolver accepted never finds that a distance
/// leads further out than there are frames.
pub proof fn law_scoped_runs_find_their_frames<'a>(
    pre: Interpreter<'a>,
    event: Event,
    post: Interpreter<'a>,
    action: Action,
)
    requires
        pre.well_formed(),
        post.well_formed(),
        machine_scoped(pre),
        stepped(pre, event, post, action),
    ensures
        machine_scoped(post),
        action matches Action::Fault(Fault::ScopeDistance) ==> pre.control() matches Control::Evaluate {
            expression,
            ..
        } && *expression matches Expr::Super { depth, .. } && depth == 0,
{
    let h = pre.heap();
    let t = pre.tasks();
    law_nothing_is_unmade(pre, event, post, action);
    match pre.control() {
        Control::Execute { statement, environment } => {
            lemma_executed_scoped(h, t, statement, environment, post, action);
        },
        Control::Evaluate { expression, environment } => {
            lemma_evaluated_scoped(h, t, expression, environment, post, action);
        },
        Control::Value(value) => {
            lemma_delivered_scoped(h, t, value, post, action);
        },
        Control::Completed => {
            if t.len() > 0 {
                lemma_tasks_scoped_pop(h, t);
                match t.last() {
                    Task::Sequence { statements, next, environment } => {
                        lemma_sequenced_scoped(h, t.drop_last(), statements, next, environment, post);
                    },
                    Task::LoopBody { condition, body, environment } => {
                        lemma_tasks_scoped_push(
                            h,
                            t.drop_last(),
                            Task::LoopTest { condition, body, environment },
                        );
                    },
                    Task::Call { is_initializer, closure, line } => {
                        lemma_call_returned_scoped(
                            h,
                            t.drop_last(),
                            is_initializer,
                            closure,
                            line,
                            LoxValue::Nil,
                            post,
                            action,
                        );
                    },
                    _ => {},
                }
            }
        },
        Control::Returning(value) => {
            if t.len() > 0 {
                lemma_tasks_scoped_pop(h, t);
                match t.last() {
                    Task::Call { is_initializer, closure, line } => {
                        lemma_call_returned_scoped(
                            h,
                            t.drop_last(),
                            is_initializer,
                            closure,
                            line,
                            value,
                            post,
                            action,
                        );
                    },
                    _ => {},
                }
            }
        },
        Control::AwaitText => {
            if t.len() > 0 {
                lemma_tasks_scoped_pop(h, t);
            }
        },
        _ => {},
    }
}

/// A new machine is scoped.
pub proof fn law_new_machine_is_scoped<'a>(machine: Interpreter<'a>)
    requires
        machine.well_formed(),
        machine.control() is Idle,
        machine.tasks().len() == 0,
        machine.heap().frames@.len() == 1,
        machine.heap().frames@[0].bindings() == Map::<Seq<char>, LoxValue>::empty().insert(
            "clock"@,
            LoxValue::Callable(0),
        ),
        machine.heap().callables@ == seq![LoxCallable::ClockFunction],
        machine.heap().instances@.len() == 0,
    ensures
        machine_scoped(machine),
{
}

/// Loading statements that are scoped at depth zero into a machine whose
/// heap is scoped gives a scoped machine.
pub proof fn law_loaded_statements_are_scoped<'a>(
    heap: Heap<'a>,
    statements: &'a Vec<Stmt>,
    post: Interpreter<'a>,
)
    requires
        heap_scoped(heap),
        heap.frames@.len() > 0,
        post.heap() == heap,
        stmts_scoped(statements@, 0),
        sequenced(Seq::empty(), statements, 0, 0, post),
    ensures
        machine_scoped(post),
{
    lemma_sequenced_scoped(heap, Seq::empty(), statements, 0, 0, post);
}

/// What is reported is never taken back: the reports before the first
/// `upto` expressions of a list are still there after them, and the scopes
/// are the same.
proof fn lemma_exprs_state_keeps(exprs: Seq<Expr>, upto: nat, st: Scoping)
    ensures
        exprs_state(exprs, upto, st).scopes == st.scopes,
        exprs_state(exprs, upto, st).class == st.class,
        st.errors.is_prefix_of(exprs_state(exprs, upto, st).errors),
    decreases upto,
{
    reveal(exprs_state);
    reveal(after_expr);
    if !(upto == 0 || upto > exprs.len()) {
        lemma_exprs_state_keeps(exprs, (upto - 1) as nat, st);
        law_expressions_keep_scopes(exprs[upto - 1], exprs_state(exprs, (upto - 1) as nat, st));
    }
}

/// The reports after fewer expressions of a list are still there after more
/// of them.
proof fn lemma_exprs_state_grows(exprs: Seq<Expr>, fewer: nat, more: nat, st: Scoping)
    requires
        fewer <= more <= exprs.len(),
    ensures
        exprs_state(exprs, fewer, st).errors.is_prefix_of(exprs_state(exprs, more, st).errors),
    decreases more - fewer,
{
    reveal(exprs_state);
    reveal(after_expr);
    if fewer < more {
        lemma_exprs_state_grows(exprs, fewer, (more - 1) as nat, st);
        law_expressions_keep_scopes(exprs[more - 1], exprs_state(exprs, (more - 1) as nat, st));
    }
}

/// What a resolved list says of one of its expressions.
proof fn lemma_listed(before: Seq<Expr>, after: Seq<Expr>, st: Scoping, i: int)
    requires
        annotated_exprs(before, after, st),
        0 <= i < before.len(),
    ensures
        after.len() == before.len(),
        annotated_expr(before[i], after[i], exprs_state(before, i as nat, st)),
        exprs_state(before, (i + 1) as nat, st) == after_expr(
            before[i],
            exprs_state(before, i as nat, st),
        ),
{
    reveal(annotated_exprs);
    reveal(annotated_expr);
    reveal(exprs_state);
    reveal(after_expr);
}

/// A resolved list is as long as the list was.
proof fn lemma_listed_length(before: Seq<Expr>, after: Seq<Expr>, st: Scoping)
    requires
        annotated_exprs(before, after, st),
    ensures
        after.len() == before.len(),
{
    reveal(annotated_exprs);
    reveal(annotated_expr);
}

/// Reports between equal reports are equal to them.
proof fn lemma_squeezed<T>(a: Seq<T>, b: Seq<T>, c: Seq<T>)
    requires
        a.is_prefix_of(b),
        b.is_prefix_of(c),
        c == a,
    ensures
        b == a,
{
    assert(b =~= a);
}

/// A scope distance is at most the number of scopes.
proof fn lemma_distance_fits(scopes: Seq<Map<Seq<char>, bool>>, name: Seq<char>)
    ensures
        match distance(scopes, name) {
            Some(d) => d <= scopes.len(),
            None => true,
        },
{
    if scopes.len() <= usize::MAX {
        law_distance_is_nearest(scopes, name);
    }
}

/// An expression that was resolved without a report is scoped at the number
/// of scopes around it.
pub proof fn law_resolved_expression_is_scoped(before: Expr, after: Expr, st: Scoping)
    requires
        annotated_expr(before, after, st),
        after_expr(before, st).errors == st.errors,
    ensures
        expr_scoped(after, st.scopes.len()),
    decreases before,
{
    reveal(annotated_expr);
    reveal(after_expr);
    reveal(expr_scoped);
    reveal(annotated_exprs);
    reveal(exprs_state);
    let n = st.scopes.len();
    match before {
        Expr::Variable { name, .. } => {
            lemma_distance_fits(st.scopes, name.lexeme@);
        },
        Expr::Assign { name, value, .. } => {
            law_expressions_keep_scopes(*value, st);
            lemma_distance_fits(st.scopes, name.lexeme@);
            match after {
                Expr::Assign { value: value2, .. } => {
                    law_resolved_expression_is_scoped(*value, *value2, st);
                },
                _ => {},
            }
        },
        Expr::Binary { left, right, .. } => {
            lemma_pair_resolved(*left, *right, st);
            match after {
                Expr::Binary { left: left2, right: right2, .. } => {
                    law_resolved_expression_is_scoped(*left, *left2, st);
                    law_resolved_expression_is_scoped(*right, *right2, after_expr(*left, st));
                },
                _ => {},
            }
        },
        Expr::Logical { left, right, .. } => {
            lemma_pair_resolved(*left, *right, st);
            match after {
                Expr::Logical { left: left2, right: right2, .. } => {
                    law_resolved_expression_is_scoped(*left, *left2, st);
                    law_resolved_expression_is_scoped(*right, *right2, after_expr(*left, st));
                },
                _ => {},
            }
        },
        Expr::Call { callee, arguments, .. } => {
            law_expressions_keep_scopes(*callee, st);
            let called = after_expr(*callee, st);
            lemma_exprs_state_keeps(arguments@, arguments@.len(), called);
            lemma_squeezed(
                st.errors,
                called.errors,
                exprs_state(arguments@, arguments@.len(), called).errors,
            );
            match after {
                Expr::Call { callee: callee2, arguments: arguments2, .. } => {
                    law_resolved_expression_is_scoped(*callee, *callee2, st);
                    lemma_listed_length(arguments@, arguments2@, called);
                    assert forall|i: int| 0 <= i < arguments2@.len() implies expr_scoped(
                        #[trigger] arguments2@[i],
                        n,
                    ) by {
                        let at = exprs_state(arguments@, i as nat, called);
                        let next = exprs_state(arguments@, (i + 1) as nat, called);
                        lemma_listed(arguments@, arguments2@, called, i);
                        lemma_exprs_state_keeps(arguments@, i as nat, called);
                        lemma_exprs_state_grows(arguments@, i as nat, (i + 1) as nat, called);
                        lemma_exprs_state_grows(
                            arguments@,
                            (i + 1) as nat,
                            arguments@.len(),
                            called,
                        );
                        lemma_squeezed(
                            called.errors,
                            next.errors,
                            exprs_state(arguments@, arguments@.len(), called).errors,
                        );
                        lemma_squeezed(called.errors, at.errors, next.errors);
                        law_resolved_expression_is_scoped(arguments@[i], arguments2@[i], at);
                    }
                },
                _ => {},
            }
        },
        Expr::Grouping { expression } => {
            match after {
                Expr::Grouping { expression: expression2 } => {
                    law_resolved_expression_is_scoped(*expression, *expression2, st);
                },
                _ => {},
            }
        },
        Expr::Literal { .. } => {},
        Expr::Unary { right, .. } => {
            match after {
                Expr::Unary { right: right2, .. } => {
                    law_resolved_expression_is_scoped(*right, *right2, st);
                },
                _ => {},
            }
        },
        Expr::Conditional { condition, then_branch, else_branch } => {
            law_expressions_keep_scopes(*condition, st);
            let first = after_expr(*condition, st);
            law_expressions_keep_scopes(*then_branch, first);
            let second = after_expr(*then_branch, first);
            law_expressions_keep_scopes(*else_branch, second);
            let third = after_expr(*else_branch, second);
            assert(first.errors.is_prefix_of(third.errors));
            lemma_squeezed(st.errors, first.errors, third.errors);
            lemma_squeezed(first.errors, second.errors, third.errors);
            match after {
                Expr::Conditional {
                    condition: condition2,
                    then_branch: then2,
                    else_branch: else2,
                } => {
                    law_resolved_expression_is_scoped(*condition, *condition2, st);
                    law_resolved_expression_is_scoped(*then_branch, *then2, first);
                    law_resolved_expression_is_scoped(*else_branch, *else2, second);
                },
                _ => {},
            }
        },
        Expr::Get { object, .. } => {
            match after {
                Expr::Get { object: object2, .. } => {
                    law_resolved_expression_is_scoped(*object, *object2, st);
                },
                _ => {},
            }
        },
        Expr::SetProperty { object, value, .. } => {
            lemma_pair_resolved(*value, *object, st);
            match after {
                Expr::SetProperty { object: object2, value: value2, .. } => {
                    law_resolved_expression_is_scoped(*value, *value2, st);
                    law_resolved_expression_is_scoped(*object, *object2, after_expr(*value, st));
                },
                _ => {},
            }
        },
        Expr::This { keyword, .. } => {
            lemma_distance_fits(st.scopes, keyword.lexeme@);
            match st.this_offence(keyword) {
                Some(kind) => {
                    assert(st.complain(keyword, kind).errors.len() == st.errors.len() + 1);
                },
                None => {},
            }
        },
        Expr::Super { keyword, .. } => {
            lemma_distance_fits(st.scopes, keyword.lexeme@);
            match st.super_offence(keyword) {
                Some(kind) => {
                    assert(st.complain(keyword, kind).errors.len() == st.errors.len() + 1);
                },
                None => {},
            }
        },
    }
}

/// Two expressions that were resolved one after the other without a report
/// were each resolved without a report, in the same scopes.
proof fn lemma_pair_resolved(first: Expr, second: Expr, st: Scoping)
    requires
        after_expr(second, after_expr(first, st)).errors == st.errors,
    ensures
        after_expr(first, st).errors == st.errors,
        after_expr(first, st).scopes == st.scopes,
        after_expr(second, after_expr(first, st)).errors == after_expr(first, st).errors,
{
    law_expressions_keep_scopes(first, st);
    law_expressions_keep_scopes(second, after_expr(first, st));
    lemma_squeezed(
        st.errors,
        after_expr(first, st).errors,
        after_expr(second, after_expr(first, st)).errors,
    );
}

/// What a resolved list says of one of its statements.
proof fn lemma_stmt_listed(before: Seq<Stmt>, after: Seq<Stmt>, st: Scoping, i: int)
    requires
        annotated_stmts(before, after, st),
        0 <= i < before.len(),
    ensures
        after.len() == before.len(),
        annotated_stmt(before[i], after[i], stmts_state(before, i as nat, st)),
        stmts_state(before, (i + 1) as nat, st) == after_stmt(
            before[i],
            stmts_state(before, i as nat, st),
        ),
{
    reveal(annotated_stmts);
    reveal(annotated_stmt);
    reveal(stmts_state);
    reveal(after_stmt);
}

/// A resolved list of statements is as long as the list was.
proof fn lemma_stmt_listed_length(before: Seq<Stmt>, after: Seq<Stmt>, st: Scoping)
    requires
        annotated_stmts(before, after, st),
    ensures
        after.len() == before.len(),
{
    reveal(annotated_stmts);
    reveal(annotated_stmt);
}

/// What a resolved class body says of one of its members.
proof fn lemma_method_listed(
    before: Seq<Stmt>,
    after: Seq<Stmt>,
    class_name: Token,
    st: Scoping,
    i: int,
)
    requires
        annotated_methods(before, after, class_name, st),
        0 <= i < before.len(),
    ensures
        after.len() == before.len(),
        annotated_method(before[i], after[i], methods_state(before, class_name, i as nat, st)),
        before[i] matches Stmt::Function { name, params, body } ==> methods_state(
            before,
            class_name,
            (i + 1) as nat,
            st,
        ) == after_function(
            params@,
            body@,
            method_kind(name),
            methods_state(before, class_name, i as nat, st),
        ),
{
    reveal(annotated_methods);
    reveal(annotated_stmts);
    reveal(methods_state);
    reveal(after_function);
    reveal(stmts_state);
}

/// A resolved class body is as long as the body was.
proof fn lemma_method_listed_length(
    before: Seq<Stmt>,
    after: Seq<Stmt>,
    class_name: Token,
    st: Scoping,
)
    requires
        annotated_methods(before, after, class_name, st),
    ensures
        after.len() == before.len(),
{
    reveal(annotated_methods);
    reveal(annotated_stmts);
}

/// The reports after fewer statements of a list are still there after more
/// of them, and the scopes are as many.
proof fn lemma_stmts_state_grows(stmts: Seq<Stmt>, fewer: nat, more: nat, st: Scoping)
    requires
        fewer <= more <= stmts.len(),
    ensures
        balanced(stmts_state(stmts, fewer, st), stmts_state(stmts, more, st)),
    decreases more - fewer,
{
    reveal(stmts_state);
    reveal(after_stmt);
    if fewer < more {
        lemma_stmts_state_grows(stmts, fewer, (more - 1) as nat, st);
        law_statements_balance_scopes(stmts[more - 1], stmts_state(stmts, (more - 1) as nat, st));
    }
}

/// The reports after fewer members of a class body are still there after
/// more of them, and the scopes are as many.
proof fn lemma_methods_state_grows(
    methods: Seq<Stmt>,
    class_name: Token,
    fewer: nat,
    more: nat,
    st: Scoping,
)
    requires
        fewer <= more <= methods.len(),
    ensures
        balanced(
            methods_state(methods, class_name, fewer, st),
            methods_state(methods, class_name, more, st),
        ),
    decreases more - fewer,
{
    reveal(methods_state);
    reveal(after_function);
    if fewer < more {
        lemma_methods_state_grows(methods, class_name, fewer, (more - 1) as nat, st);
        let earlier = methods_state(methods, class_name, (more - 1) as nat, st);
        match methods[more - 1] {
            Stmt::Function { name, params, body } => {
                lemma_function_balances(params@, body@, method_kind(name), earlier);
            },
            _ => {},
        }
    }
}

/// A state between two states with the same reports has those reports too.
proof fn lemma_quiet_between(first: Scoping, between: Scoping, last: Scoping)
    requires
        first.errors.is_prefix_of(between.errors),
        between.errors.is_prefix_of(last.errors),
        last.errors == first.errors,
    ensures
        between.errors == first.errors,
        last.errors == between.errors,
{
    lemma_squeezed(first.errors, between.errors, last.errors);
}

/// The body of a function that was resolved without a report is scoped one
/// deeper than the function.
proof fn lemma_resolved_body_scoped(
    params: Seq<Token>,
    body: Seq<Stmt>,
    resolved: Seq<Stmt>,
    kind: FunctionType,
    st: Scoping,
)
    requires
        annotated_stmts(body, resolved, function_entry(params, kind, st)),
        after_function(params, body, kind, st).errors == st.errors,
    ensures
        stmts_scoped(resolved, st.scopes.len() + 1),
    decreases body, body.len() + 2,
{
    reveal(after_function);
    reveal(stmts_state);
    let inside = st.within_function(kind).begin_scope();
    let entry = function_entry(params, kind, st);
    let left = stmts_state(body, body.len(), entry);
    lemma_params_balance(params, params.len(), inside);
    lemma_statement_lists_balance(body, body.len(), entry);
    lemma_quiet_between(st, entry, left);
    law_resolved_statements_are_scoped(body, resolved, entry);
}

/// The bodies of the methods of a class body that was resolved without a
/// report are scoped one deeper than the class body.
proof fn lemma_resolved_methods_scoped(
    before: Seq<Stmt>,
    after: Seq<Stmt>,
    class_name: Token,
    st: Scoping,
)
    requires
        annotated_methods(before, after, class_name, st),
        methods_state(before, class_name, before.len(), st).errors == st.errors,
    ensures
        after.len() == before.len(),
        forall|i: int|
            0 <= i < after.len() ==> (#[trigger] after[i] matches Stmt::Function { body, .. }
                ==> stmts_scoped(body@, st.scopes.len() + 1)),
    decreases before, before.len() + 3,
{
    lemma_method_listed_length(before, after, class_name, st);
    assert forall|i: int| 0 <= i < after.len() implies (#[trigger] after[i] matches Stmt::Function {
        body,
        ..
    } ==> stmts_scoped(body@, st.scopes.len() + 1)) by {
        let at = methods_state(before, class_name, i as nat, st);
        let next = methods_state(before, class_name, (i + 1) as nat, st);
        let last = methods_state(before, class_name, before.len(), st);
        lemma_method_listed(before, after, class_name, st, i);
        lemma_methods_balance(before, class_name, i as nat, st);
        lemma_methods_state_grows(before, class_name, i as nat, (i + 1) as nat, st);
        lemma_methods_state_grows(before, class_name, (i + 1) as nat, before.len(), st);
        lemma_quiet_between(st, next, last);
        lemma_quiet_between(st, at, next);
        match before[i] {
            Stmt::Function { name, params, body } => {
                match after[i] {
                    Stmt::Function { body: body2, .. } => {
                        lemma_resolved_body_scoped(params@, body@, body2@, method_kind(name), at);
                    },
                    _ => {},
                }
            },
            _ => {},
        }
    }
}

/// The statements of a list that was resolved without a report are scoped
/// at the number of scopes around the list.
pub proof fn law_resolved_statements_are_scoped(before: Seq<Stmt>, after: Seq<Stmt>, st: Scoping)
    requires
        annotated_stmts(before, after, st),
        stmts_state(before, before.len(), st).errors == st.errors,
    ensures
        stmts_scoped(after, st.scopes.len()),
    decreases before, before.len() + 1,
{
    lemma_stmt_listed_length(before, after, st);
    assert forall|i: int| 0 <= i < after.len() implies stmt_scoped(
        #[trigger] after[i],
        st.scopes.len(),
    ) by {
        let at = stmts_state(before, i as nat, st);
        let next = stmts_state(before, (i + 1) as nat, st);
        let last = stmts_state(before, before.len(), st);
        lemma_stmt_listed(before, after, st, i);
        lemma_statement_lists_balance(before, i as nat, st);
        lemma_stmts_state_grows(before, i as nat, (i + 1) as nat, st);
        lemma_stmts_state_grows(before, (i + 1) as nat, before.len(), st);
        lemma_quiet_between(st, next, last);
        lemma_quiet_between(st, at, next);
        law_resolved_statement_is_scoped(before[i], after[i], at);
    }
}

/// A statement that was resolved without a report is scoped at the number
/// of scopes around it: every scope distance that the resolver wrote into it
/// is at most the number of scopes around the place where it stands.
pub proof fn law_resolved_statement_is_scoped(before: Stmt, after: Stmt, st: Scoping)
    requires
        annotated_stmt(before, after, st),
        after_stmt(before, st).errors == st.errors,
    ensures
        stmt_scoped(after, st.scopes.len()),
    decreases before, 0nat,
{
    reveal(annotated_stmt);
    reveal(after_stmt);
    reveal(stmt_scoped);
    reveal(annotated_stmts);
    reveal(stmts_state);
    reveal(annotated_methods);
    reveal(methods_state);
    reveal(after_function);
    match before {
        Stmt::Block { statements } => {
            let inner = st.begin_scope();
            lemma_statement_lists_balance(statements@, statements@.len(), inner);
            match after {
                Stmt::Block { statements: statements2 } => {
                    law_resolved_statements_are_scoped(statements@, statements2@, inner);
                },
                _ => {},
            }
        },
        Stmt::Var { name, initializer } => {
            match (initializer, after) {
                (Some(value), Stmt::Var { initializer: Some(value2), .. }) => {
                    let declared = st.declare(name);
                    law_expressions_keep_scopes(value, declared);
                    lemma_quiet_between(st, declared, after_expr(value, declared));
                    law_resolved_expression_is_scoped(value, value2, declared);
                },
                _ => {},
            }
        },
        Stmt::Function { name, params, body } => {
            let named = st.declare(name).define(name);
            lemma_function_balances(params@, body@, FunctionType::Function, named);
            lemma_quiet_between(
                st,
                named,
                after_function(params@, body@, FunctionType::Function, named),
            );
            match after {
                Stmt::Function { body: body2, .. } => {
                    lemma_resolved_body_scoped(
                        params@,
                        body@,
                        body2@,
                        FunctionType::Function,
                        named,
                    );
                },
                _ => {},
            }
        },
        Stmt::Expression { expr } => {
            match after {
                Stmt::Expression { expr: expr2 } => {
                    law_resolved_expression_is_scoped(expr, expr2, st);
                },
                _ => {},
            }
        },
        Stmt::If { condition, then_branch, else_branch } => {
            let tested = after_expr(condition, st);
            let first = after_stmt(*then_branch, tested);
            law_expressions_keep_scopes(condition, st);
            law_statements_balance_scopes(*then_branch, tested);
            match after {
                Stmt::If { condition: condition2, then_branch: then2, else_branch: else2 } => {
                    match (else_branch, else2) {
                        (Some(otherwise), Some(otherwise2)) => {
                            let second = after_stmt(*otherwise, first);
                            law_statements_balance_scopes(*otherwise, first);
                            lemma_quiet_between(st, first, second);
                            lemma_quiet_between(st, tested, first);
                            law_resolved_statement_is_scoped(*otherwise, *otherwise2, first);
                        },
                        _ => {
                            lemma_quiet_between(st, tested, first);
                        },
                    }
                    law_resolved_expression_is_scoped(condition, condition2, st);
                    law_resolved_statement_is_scoped(*then_branch, *then2, tested);
                },
                _ => {},
            }
        },
        Stmt::Print { expr } => {
            match after {
                Stmt::Print { expr: expr2 } => {
                    law_resolved_expression_is_scoped(expr, expr2, st);
                },
                _ => {},
            }
        },
        Stmt::Return { keyword, value } => {
            match (value, after) {
                (Some(result), Stmt::Return { value: Some(result2), .. }) => {
                    let checked = return_checked(keyword, true, st);
                    law_expressions_keep_scopes(result, checked);
                    lemma_quiet_between(st, checked, after_expr(result, checked));
                    law_resolved_expression_is_scoped(result, result2, checked);
                },
                _ => {},
            }
        },
        Stmt::While { condition, body } => {
            let tested = after_expr(condition, st);
            law_expressions_keep_scopes(condition, st);
            law_statements_balance_scopes(*body, tested);
            lemma_quiet_between(st, tested, after_stmt(*body, tested));
            match after {
                Stmt::While { condition: condition2, body: body2 } => {
                    law_resolved_expression_is_scoped(condition, condition2, st);
                    law_resolved_statement_is_scoped(*body, *body2, tested);
                },
                _ => {},
            }
        },
        Stmt::Class { name, superclass, methods } => {
            let header = class_header(name, st);
            let clause = after_superclass(name, superclass, header);
            let entry = class_entry(name, superclass, st);
            let done = methods_state(methods@, name, methods@.len(), entry);
            lemma_methods_balance(methods@, name, methods@.len(), entry);
            lemma_superclass_balanced(name, superclass, header);
            assert(st.errors.is_prefix_of(header.errors));
            lemma_quiet_between(st, clause, done);
            lemma_quiet_between(st, header, clause);
            match after {
                Stmt::Class { superclass: superclass2, methods: methods2, .. } => {
                    lemma_resolved_methods_scoped(methods@, methods2@, name, entry);
                    lemma_resolved_clause(name, superclass, superclass2, header);
                },
                _ => {},
            }
        },
    }
}

/// The superclass clause of a class reports offences and changes nothing
/// else.
proof fn lemma_superclass_balanced(name: Token, superclass: Option<Expr>, st: Scoping)
    ensures
        after_superclass(name, superclass, st).scopes == st.scopes,
        st.errors.is_prefix_of(after_superclass(name, superclass, st).errors),
{
    match superclass {
        Some(Expr::Variable { name: super_name, depth }) => {
            law_expressions_keep_scopes(
                Expr::Variable { name: super_name, depth },
                if super_name.lexeme@ == name.lexeme@ {
                    st.complain(super_name, ScopeErrorKind::SelfInheritance)
                } else {
                    st
                },
            );
        },
        _ => {},
    }
}

/// A superclass clause that was resolved without a report is a name, scoped
/// at the number of scopes around the class.
proof fn lemma_resolved_clause(
    name: Token,
    superclass: Option<Expr>,
    resolved: Option<Expr>,
    st: Scoping,
)
    requires
        after_superclass(name, superclass, st).errors == st.errors,
        match superclass {
            Some(Expr::Variable { name: super_name, depth }) => {
                &&& resolved matches Some(clause)
                &&& annotated_expr(Expr::Variable { name: super_name, depth }, clause, st)
            },
            _ => resolved == superclass,
        },
    ensures
        resolved is Some == superclass is Some,
        match resolved {
            Some(clause) => expr_scoped(clause, st.scopes.len()),
            None => true,
        },
{
    reveal(annotated_expr);
    reveal(after_expr);
    reveal(expr_scoped);
    match superclass {
        Some(Expr::Variable { name: super_name, depth }) => {
            lemma_distance_fits(st.scopes, super_name.lexeme@);
        },
        Some(_) => {
            assert(st.complain(name, ScopeErrorKind::SuperclassNotName).errors.len()
                == st.errors.len() + 1);
        },
        None => {},
    }
}

/// A program that the resolver accepted outside every scope runs scoped:
/// loaded into a machine whose heap is scoped, it gives a scoped machine,
/// which every step leaves scoped.
pub proof fn law_accepted_program_runs_scoped<'a>(
    source: Seq<Stmt>,
    statements: &'a Vec<Stmt>,
    st: Scoping,
    heap: Heap<'a>,
    post: Interpreter<'a>,
)
    requires
        st.scopes.len() == 0,
        annotated_stmts(source, statements@, st),
        stmts_state(source, source.len(), st).errors == st.errors,
        heap_scoped(heap),
        heap.frames@.len() > 0,
        post.heap() == heap,
        sequenced(Seq::empty(), statements, 0, 0, post),
    ensures
        machine_scoped(post),
{
    law_resolved_statements_are_scoped(source, statements@, st);
    law_loaded_statements_are_scoped(heap, statements, post);
}

} // verus!
