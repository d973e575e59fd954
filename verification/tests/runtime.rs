use rlox::environment::Environment;
use rlox::heap::Heap;
use rlox::lox_callable::{FunctionStmt, LoxCallable};
use rlox::lox_class::LoxClass;
use rlox::lox_instance::LoxInstance;
use rlox::interpreter::Stringifyable;
use rlox::stmt::Stmt;
use rlox::table::Table;
use rlox::token::{Literal, Token};
use rlox::token_type::TokenType;
use rlox::value::{LoxValue, RuntimeError, RuntimeEvent};

fn name(text: &str) -> Token {
    Token::new(TokenType::Identifier, text.to_string(), 4)
}

fn text_of(value: &LoxValue) -> &str {
    match value {
        LoxValue::String(text) => text,
        other => panic!("unexpected {:?}", other),
    }
}

fn message_of(event: RuntimeEvent) -> (usize, String) {
    match event {
        RuntimeEvent::Error(RuntimeError { token, message }) => (token.line, message),
        RuntimeEvent::Return(value) => panic!("unexpected return of {:?}", value),
    }
}

fn string(text: &str) -> LoxValue {
    LoxValue::String(text.to_string())
}

/// Three frames in a chain, 0 outermost, and a fourth that also lies inside
/// frame 1.
fn frames() -> Vec<Environment> {
    let mut global = Environment::new();
    global.define("a".to_string(), string("global a"));
    global.define("g".to_string(), string("global g"));
    let mut middle = Environment::new_enclosing(0);
    middle.define("a".to_string(), string("middle a"));
    middle.define("m".to_string(), string("middle m"));
    let mut inner = Environment::new_enclosing(1);
    inner.define("i".to_string(), string("inner i"));
    let sibling = Environment::new_enclosing(1);
    vec![global, middle, inner, sibling]
}

#[test]
fn a_known_distance_is_walked_hop_by_hop() {
    let frames = frames();
    assert_eq!(text_of(&Environment::get_at(&frames, 2, Some(0), &name("i")).unwrap()), "inner i");
    assert_eq!(text_of(&Environment::get_at(&frames, 2, Some(1), &name("a")).unwrap()), "middle a");
    assert_eq!(text_of(&Environment::get_at(&frames, 2, Some(2), &name("a")).unwrap()), "global a");
    assert_eq!(text_of(&Environment::get_at(&frames, 1, Some(1), &name("g")).unwrap()), "global g");
    // The name is looked for in the frame at the distance, and nowhere else.
    let missing = Environment::get_at(&frames, 2, Some(0), &name("a")).unwrap_err();
    assert_eq!(message_of(missing), (4, "Undefined variable 'a'.".to_string()));
}

#[test]
fn an_unknown_distance_means_the_outermost_frame() {
    let frames = frames();
    assert_eq!(text_of(&Environment::get_at(&frames, 2, None, &name("a")).unwrap()), "global a");
    assert_eq!(text_of(&Environment::get_at(&frames, 0, None, &name("g")).unwrap()), "global g");
    let missing = Environment::get_at(&frames, 2, None, &name("m")).unwrap_err();
    assert_eq!(message_of(missing), (4, "Undefined variable 'm'.".to_string()));
}

#[test]
fn whether_a_distance_leads_to_a_frame() {
    let frames = frames();
    assert!(Environment::reaches(&frames, 2, Some(0)));
    assert!(Environment::reaches(&frames, 2, Some(2)));
    assert!(!Environment::reaches(&frames, 2, Some(3)));
    assert!(Environment::reaches(&frames, 0, Some(0)));
    assert!(!Environment::reaches(&frames, 0, Some(1)));
    assert!(Environment::reaches(&frames, 3, None));
    assert_eq!(frames[2].enclosing(), Some(1));
    assert_eq!(frames[0].enclosing(), None);
}

#[test]
fn assignment_overwrites_what_every_frame_inside_sees() {
    let mut frames = frames();
    Environment::assign_at(&mut frames, 2, Some(1), &name("m"), string("changed")).unwrap();
    // The sibling frame reaches the same frame and reads the new value.
    assert_eq!(text_of(&Environment::get_at(&frames, 3, Some(1), &name("m")).unwrap()), "changed");
    assert_eq!(text_of(&Environment::get_at(&frames, 1, Some(0), &name("m")).unwrap()), "changed");
    Environment::assign_at(&mut frames, 3, None, &name("a"), string("new global")).unwrap();
    assert_eq!(text_of(&Environment::get_at(&frames, 2, Some(2), &name("a")).unwrap()), "new global");
    // The binding of the same name in the frame between is untouched.
    assert_eq!(text_of(&Environment::get_at(&frames, 2, Some(1), &name("a")).unwrap()), "middle a");
}

#[test]
fn assignment_does_not_create_a_binding() {
    let mut frames = frames();
    let missing =
        Environment::assign_at(&mut frames, 2, Some(0), &name("a"), LoxValue::Nil).unwrap_err();
    assert_eq!(message_of(missing), (4, "Undefined variable 'a'.".to_string()));
    assert!(Environment::get_at(&frames, 2, Some(0), &name("a")).is_err());
    let missing = Environment::assign_at(&mut frames, 2, None, &name("i"), LoxValue::Nil).unwrap_err();
    assert_eq!(message_of(missing), (4, "Undefined variable 'i'.".to_string()));
}

#[test]
fn define_overwrites_in_the_same_frame() {
    let mut frames = frames();
    frames[1].define("a".to_string(), LoxValue::Number(7));
    assert!(matches!(
        Environment::get_at(&frames, 1, Some(0), &name("a")),
        Ok(LoxValue::Number(7))
    ));
    assert_eq!(text_of(&Environment::get_at(&frames, 1, Some(1), &name("a")).unwrap()), "global a");
}

#[test]
fn values_are_truthy_unless_nil_or_false() {
    assert!(!LoxValue::Nil.is_truthy());
    assert!(!LoxValue::Boolean(false).is_truthy());
    assert!(LoxValue::Boolean(true).is_truthy());
    assert!(LoxValue::Number(0).is_truthy());
    assert!(string("").is_truthy());
    assert!(LoxValue::Callable(0).is_truthy());
    assert!(LoxValue::Instance(0).is_truthy());
}

#[test]
fn values_are_equal_by_value_or_by_identity() {
    let nan = f64::NAN.to_bits();
    assert!(string("a").eq(&string("a")));
    assert!(string("a").ne(&string("b")));
    assert!(LoxValue::Number(1.5f64.to_bits()).eq(&LoxValue::Number(1.5f64.to_bits())));
    assert!(LoxValue::Number(0.0f64.to_bits()).eq(&LoxValue::Number((-0.0f64).to_bits())));
    assert!(LoxValue::Number(nan).ne(&LoxValue::Number(nan)));
    assert!(LoxValue::Nil.eq(&LoxValue::Nil));
    assert!(LoxValue::Nil.ne(&LoxValue::Boolean(false)));
    assert!(LoxValue::Boolean(true).eq(&LoxValue::Boolean(true)));
    assert!(LoxValue::Callable(3).eq(&LoxValue::Callable(3)));
    assert!(LoxValue::Callable(3).ne(&LoxValue::Callable(4)));
    assert!(LoxValue::Instance(3).eq(&LoxValue::Instance(3)));
    assert!(LoxValue::Instance(3).ne(&LoxValue::Callable(3)));
    assert!(string("1").ne(&LoxValue::Number(1.0f64.to_bits())));
}

#[test]
fn literals_denote_values() {
    assert!(matches!(Literal::into(&Literal::Nil), LoxValue::Nil));
    assert!(matches!(Literal::into(&Literal::Boolean(true)), LoxValue::Boolean(true)));
    assert!(matches!(Literal::into(&Literal::Number(42)), LoxValue::Number(42)));
    assert_eq!(text_of(&Literal::into(&Literal::String("s".to_string()))), "s");
    let copy = string("kept").clone();
    assert_eq!(text_of(&copy), "kept");
    let error = RuntimeError::new(name("t"), "m".to_string());
    assert_eq!(error.token.lexeme, "t");
    assert_eq!(error.message, "m");
}

struct Declarations {
    names: Vec<Token>,
    params: Vec<Vec<Token>>,
    body: Vec<Stmt>,
}

fn declarations() -> Declarations {
    Declarations {
        names: vec![name("init"), name("greet"), name("greet"), name("free")],
        params: vec![vec![name("a"), name("b")], vec![], vec![name("x")], vec![name("p")]],
        body: vec![],
    }
}

/// A heap with the global frame, class `A` (methods `init` of two
/// parameters and `greet`), class `B` inheriting `A` (its own `greet` of one
/// parameter), class `C` inheriting `B` without methods, and one instance of
/// each of `B` and `C`.
fn classes<'a>(d: &'a Declarations) -> (Heap<'a>, usize, usize, usize) {
    let mut heap = Heap::new();
    let globals = heap.new_frame(None);
    let function = |i: usize, initializer: bool| {
        LoxCallable::new_function(
            FunctionStmt { name: &d.names[i], params: &d.params[i], body: &d.body },
            globals,
            initializer,
        )
    };
    let init = heap.new_callable(function(0, true));
    let greet_a = heap.new_callable(function(1, false));
    let mut methods = Table::new();
    methods.insert("init".to_string(), init);
    methods.insert("greet".to_string(), greet_a);
    let a = heap.new_callable(LoxCallable::Class {
        class: LoxClass::new("A".to_string(), None, methods),
    });
    let greet_b = heap.new_callable(function(2, false));
    let mut methods = Table::new();
    methods.insert("greet".to_string(), greet_b);
    let b = heap.new_callable(LoxCallable::Class {
        class: LoxClass::new("B".to_string(), Some(a), methods),
    });
    let c = heap.new_callable(LoxCallable::Class {
        class: LoxClass::new("C".to_string(), Some(b), Table::new()),
    });
    heap.new_callable(function(3, false));
    heap.new_callable(LoxCallable::ClockFunction);
    heap.new_instance(b);
    heap.new_instance(c);
    (heap, a, b, c)
}

fn method(heap: &Heap, class: usize, method: &str) -> Option<usize> {
    match LoxClass::find_method(heap, class, &method.to_string()) {
        Some(LoxValue::Callable(id)) => Some(id),
        Some(other) => panic!("unexpected {:?}", other),
        None => None,
    }
}

#[test]
fn a_method_is_found_in_the_class_or_above_it() {
    let d = declarations();
    let (heap, a, b, c) = classes(&d);
    assert_eq!(method(&heap, a, "greet"), Some(1));
    assert_eq!(method(&heap, b, "greet"), Some(3));
    assert_eq!(method(&heap, c, "greet"), Some(3));
    assert_eq!(method(&heap, a, "init"), Some(0));
    assert_eq!(method(&heap, c, "init"), Some(0));
    assert_eq!(method(&heap, c, "none"), None);
    assert_eq!(method(&heap, a, "none"), None);
}

#[test]
fn arity_is_that_of_the_parameters_or_of_the_initializer() {
    let d = declarations();
    let (mut heap, a, b, c) = classes(&d);
    assert_eq!(LoxCallable::arity(&heap, 0), 2);
    assert_eq!(LoxCallable::arity(&heap, 1), 0);
    assert_eq!(LoxCallable::arity(&heap, 3), 1);
    assert_eq!(LoxCallable::arity(&heap, 7), 0);
    assert_eq!(LoxCallable::arity(&heap, a), 2);
    assert_eq!(LoxCallable::arity(&heap, c), 2);
    assert_eq!(LoxClass::arity(&heap, b), 2);
    let plain = heap.new_callable(LoxCallable::Class {
        class: LoxClass::new("Plain".to_string(), None, Table::new()),
    });
    assert_eq!(LoxClass::arity(&heap, plain), 0);
}

#[test]
fn a_property_is_a_field_or_else_a_bound_method() {
    let d = declarations();
    let (mut heap, _, _, _) = classes(&d);
    let frames_before = heap.frames.len();
    let callables_before = heap.callables.len();

    let missing = LoxInstance::get(&mut heap, 0, &name("nothing")).unwrap_err();
    assert_eq!(message_of(missing), (4, "Undefined property 'nothing'.".to_string()));
    assert_eq!(heap.frames.len(), frames_before);
    assert_eq!(heap.callables.len(), callables_before);

    let bound = match LoxInstance::get(&mut heap, 1, &name("greet")).unwrap() {
        LoxValue::Callable(id) => id,
        other => panic!("unexpected {:?}", other),
    };
    // A new function and a new frame were made for the bound method.
    assert_eq!(bound, callables_before);
    assert_eq!(heap.frames.len(), frames_before + 1);
    match &heap.callables[bound] {
        LoxCallable::Function { declaration, closure, is_initializer } => {
            assert_eq!(declaration.params.len(), 1);
            assert!(!*is_initializer);
            assert_eq!(*closure, frames_before);
            assert_eq!(heap.frames[*closure].enclosing(), Some(0));
            assert!(matches!(
                heap.get_at(*closure, Some(0), &name("this")),
                Ok(LoxValue::Instance(1))
            ));
        }
        _ => panic!("the bound method is no function"),
    }
    // Binding again makes another function.
    let again = LoxInstance::get(&mut heap, 1, &name("greet")).unwrap();
    assert!(matches!(again, LoxValue::Callable(id) if id == bound + 1));

    // A field comes before a method of the same name.
    heap.set_field(1, &name("greet"), string("a field"));
    assert_eq!(text_of(&LoxInstance::get(&mut heap, 1, &name("greet")).unwrap()), "a field");
    // The other instance has no such field.
    assert!(matches!(LoxInstance::get(&mut heap, 0, &name("greet")), Ok(LoxValue::Callable(_))));
}

#[test]
fn fields_are_set_on_an_instance() {
    let mut instance = LoxInstance::new(5);
    assert!(instance.field(&"x".to_string()).is_none());
    assert!(instance.set(&name("x"), LoxValue::Number(1)).is_ok());
    assert!(instance.set(&name("x"), LoxValue::Number(2)).is_ok());
    assert!(matches!(instance.field(&"x".to_string()), Some(LoxValue::Number(2))));
    assert_eq!(instance.klass, 5);
}

#[test]
fn binding_keeps_the_kind_of_the_method() {
    let d = declarations();
    let (mut heap, _, _, _) = classes(&d);
    let bound = match LoxValue::Callable(0).bind(1, &mut heap) {
        LoxValue::Callable(id) => id,
        other => panic!("unexpected {:?}", other),
    };
    match &heap.callables[bound] {
        LoxCallable::Function { declaration, is_initializer, .. } => {
            assert_eq!(declaration.name.lexeme, "init");
            assert!(*is_initializer);
        }
        _ => panic!("the bound method is no function"),
    }
}

#[test]
fn callables_and_instances_read_as_they_are_printed() {
    let d = declarations();
    let (heap, a, _, _) = classes(&d);
    assert_eq!(heap.callables[0].stringify(), "<fn init>");
    assert_eq!(heap.callables[a].stringify(), "A");
    assert_eq!(heap.callables[7].stringify(), "<native fn>");
    assert_eq!(Stringifyable::stringify(&heap.callables[1], &heap), "<fn greet>");
    assert_eq!(heap.instances[0].stringify(&heap), "B instance");
    assert_eq!(heap.instances[1].stringify(&heap), "C instance");
    assert_eq!(LoxValue::Nil.stringify(&heap), "nil");
    assert_eq!(LoxValue::Boolean(true).stringify(&heap), "true");
    assert_eq!(LoxValue::Boolean(false).stringify(&heap), "false");
    assert_eq!(string("as it is").stringify(&heap), "as it is");
    assert_eq!(LoxValue::Callable(6).stringify(&heap), "<fn free>");
    assert_eq!(LoxValue::Instance(1).stringify(&heap), "C instance");
}

#[test]
fn the_heap_reads_and_writes_frames() {
    let mut heap = Heap::new();
    let globals = heap.new_frame(None);
    let inner = heap.new_frame(Some(globals));
    heap.define(globals, "a".to_string(), LoxValue::Number(1));
    assert!(heap.reaches(inner, Some(1)));
    assert!(!heap.reaches(inner, Some(2)));
    assert!(matches!(heap.get_at(inner, Some(1), &name("a")), Ok(LoxValue::Number(1))));
    assert!(heap.assign_at(inner, None, &name("a"), LoxValue::Number(2)).is_ok());
    assert!(matches!(heap.get_at(globals, Some(0), &name("a")), Ok(LoxValue::Number(2))));
    assert!(heap.assign_at(inner, Some(0), &name("a"), LoxValue::Nil).is_err());
    assert!(matches!(heap.get_at(inner, None, &name("a")), Ok(LoxValue::Number(2))));
}
