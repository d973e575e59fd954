//! Instances: a class and a table of fields.
use vstd::prelude::*;
use crate::heap::{frame_pushed, method_of, Heap};
use crate::lox_callable::LoxCallable;
use crate::lox_class::LoxClass;
use crate::table::Table;
use crate::token::Token;
use crate::value::{LoxValue, RuntimeError, RuntimeEvent};

verus! {

/// An instance of a class, which is named by its place among the callables
/// of the heap. An instance is created without fields; a field comes into
/// being when it is first set.
pub struct LoxInstance {
    pub klass: usize,
    pub fields: Table<LoxValue>,
}

impl LoxInstance {
    /// An instance of the given class, without fields.
    pub fn new(klass: usize) -> (r: LoxInstance)
        ensures
            r.klass == klass,
            r.fields@ == Map::<Seq<char>, LoxValue>::empty(),
    {
        LoxInstance { klass, fields: Table::new() }
    }

    /// The field of the given name, if it was ever set.
    pub fn field(&self, name: &String) -> (r: Option<LoxValue>)
        ensures
            r == if self.fields@.contains_key(name@) {
                Some(self.fields@[name@])
            } else {
                None
            },
    {
        match self.fields.get(name) {
            Some(value) => Some(value.clone()),
            None => None,
        }
    }

    /// Sets a field, whether or not it was set before and whether or not the
    /// class has a method of that name. This cannot fail.
    pub fn set(&mut self, name: &Token, value: LoxValue) -> (r: Result<(), RuntimeEvent>)
        ensures
            r is Ok,
            final(self).klass == old(self).klass,
            final(self).fields@ == old(self).fields@.insert(name.lexeme@, value),
    {
        self.fields.insert(name.lexeme.clone(), value);
        Ok(())
    }
}

/// The message for a property that an instance does not have.
pub open spec fn undefined_property(name: Seq<char>) -> Seq<char> {
    "Undefined property '"@ + name + "'."@
}

/// The error for a property that an instance does not have.
pub fn undefined_property_error(name: &Token) -> (r: RuntimeEvent)
    ensures
        r.is_error(*name, undefined_property(name.lexeme@)),
{
    RuntimeEvent::Error(
        RuntimeError::new(
            name.clone(),
            crate::text::join3("Undefined property '", name.lexeme.as_str(), "'."),
        ),
    )
}

/// The method at `method` was bound to `instance`: the heap `after` is
/// `before` with one more frame, which lies inside the method's own closure
/// and binds `this` to the instance, and one more function, which shares the
/// method's declaration and has the new frame as its closure; `result` is
/// that new function.
pub open spec fn bound(
    before: Heap,
    after: Heap,
    method: usize,
    instance: usize,
    result: LoxValue,
) -> bool {
    &&& before.callables@[method as int] matches LoxCallable::Function {
        declaration,
        closure,
        is_initializer,
    }
    &&& frame_pushed(
        before.frames@,
        after.frames@,
        Some(closure),
        Map::<Seq<char>, LoxValue>::empty().insert("this"@, LoxValue::Instance(instance)),
    )
    &&& after.callables@ == before.callables@.push(
        LoxCallable::Function {
            declaration,
            closure: before.frames@.len() as usize,
            is_initializer,
        },
    )
    &&& after.instances == before.instances
    &&& result == LoxValue::Callable(before.callables@.len() as usize)
}

/// What reading a property of an instance gives: the field of that name if
/// there is one; else the class's method of that name, bound to the
/// instance; else an error, and then nothing has changed.
pub open spec fn property_read(
    before: Heap,
    after: Heap,
    this: usize,
    name: Token,
    result: Result<LoxValue, RuntimeEvent>,
) -> bool {
    let instance = before.instances@[this as int];
    if instance.fields@.contains_key(name.lexeme@) {
        after == before && result == Ok::<LoxValue, RuntimeEvent>(instance.fields@[name.lexeme@])
    } else {
        match method_of(before.callables@, instance.klass as int, name.lexeme@) {
            Some(method) => {
                &&& result matches Ok(value)
                &&& bound(before, after, method, this, value)
            },
            None => {
                &&& after == before
                &&& result matches Err(event)
                &&& event.is_error(name, undefined_property(name.lexeme@))
            },
        }
    }
}

impl LoxValue {
    /// Binds a method to an instance: makes a new function that shares the
    /// method's declaration and whose closure is a new frame, inside the
    /// method's closure, that binds `this` to the instance. Every call makes a
    /// new function: nothing is kept for a second use.
    pub fn bind(&self, instance: usize, heap: &mut Heap) -> (r: LoxValue)
        requires
            old(heap).well_formed(),
            *self matches LoxValue::Callable(m) && old(heap).is_function(m),
            instance < old(heap).instances@.len(),
        ensures
            final(heap).well_formed(),
            *self matches LoxValue::Callable(m) && bound(*old(heap), *final(heap), m, instance, r),
            final(heap).value_ok(r),
    {
        match self {
            LoxValue::Callable(m) => {
                let bound_function = match &heap.callables[*m] {
                    LoxCallable::Function { declaration, closure, is_initializer } => {
                        assert(heap.callable_ok(*m as int));
                        (*declaration, *closure, *is_initializer)
                    },
                    _ => {
                        assert(false);
                        return LoxValue::Nil;
                    },
                };
                let frame = heap.new_frame(Some(bound_function.1));
                heap.define(frame, String::from_str("this"), LoxValue::Instance(instance));
                let id = heap.new_callable(
                    LoxCallable::new_function(bound_function.0, frame, bound_function.2),
                );
                proof {
                    assert(final(heap).frames@.drop_last() =~= old(heap).frames@);
                }
                LoxValue::Callable(id)
            },
            _ => {
                assert(false);
                LoxValue::Nil
            },
        }
    }
}

impl LoxInstance {
    /// Reads a property of the instance at `this`: a field if there is one of
    /// that name, else the class's method of that name, bound to the
    /// instance.
    pub fn get(heap: &mut Heap, this: usize, name: &Token) -> (r: Result<LoxValue, RuntimeEvent>)
        requires
            old(heap).well_formed(),
            this < old(heap).instances@.len(),
        ensures
            final(heap).well_formed(),
            property_read(*old(heap), *final(heap), this, *name, r),
            r matches Ok(value) ==> final(heap).value_ok(value),
    {
        assert(heap.instance_ok(this as int));
        match heap.instances[this].field(&name.lexeme) {
            Some(value) => {
                return Ok(value);
            },
            None => {},
        }
        let class = heap.instances[this].klass;
        match LoxClass::find_method(heap, class, &name.lexeme) {
            Some(method) => Ok(method.bind(this, heap)),
            None => Err(undefined_property_error(name)),
        }
    }
}

/// How an instance of the class named `class_name` reads when it is printed.
pub open spec fn instance_text(class_name: Seq<char>) -> Seq<char> {
    class_name + " instance"@
}

} // verus!
