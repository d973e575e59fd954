//! Classes: a name, an optional superclass, and a table of methods.
use vstd::prelude::*;
use crate::heap::{arity_of, method_of, Heap};
use crate::lox_callable::LoxCallable;
use crate::table::Table;
use crate::value::LoxValue;

verus! {

/// A class. Its superclass and its methods are named by their places among
/// the callables of the heap.
pub struct LoxClass {
    pub name: String,
    pub superclass: Option<usize>,
    pub methods: Table<usize>,
}

impl LoxClass {
    /// A class of the given name, superclass and methods.
    pub fn new(name: String, superclass: Option<usize>, methods: Table<usize>) -> (r: LoxClass)
        ensures
            r.name == name,
            r.superclass == superclass,
            r.methods == methods,
    {
        LoxClass { name, superclass, methods }
    }

    /// The method of the given name that this class itself defines, if any.
    pub fn own_method(&self, name: &String) -> (r: Option<usize>)
        ensures
            r == if self.methods@.contains_key(name@) {
                Some(self.methods@[name@])
            } else {
                None
            },
    {
        match self.methods.get(name) {
            Some(method) => Some(*method),
            None => None,
        }
    }
}

impl LoxClass {
    /// Finds the method that the class at `class` offers under `name`: its
    /// own, or else what its superclass offers.
    pub fn find_method(heap: &Heap, class: usize, name: &String) -> (r: Option<LoxValue>)
        requires
            heap.well_formed(),
            heap.is_class(class),
        ensures
            match r {
                Some(method) => {
                    &&& method_of(heap.callables@, class as int, name@) matches Some(m)
                    &&& method == LoxValue::Callable(m)
                    &&& heap.is_function(m)
                    &&& m < class
                },
                None => method_of(heap.callables@, class as int, name@) is None,
            },
        decreases class,
    {
        assert(heap.callable_ok(class as int));
        match &heap.callables[class] {
            LoxCallable::Class { class: c } => {
                match c.own_method(name) {
                    Some(m) => Some(LoxValue::Callable(m)),
                    None => match c.superclass {
                        Some(s) => Self::find_method(heap, s, name),
                        None => None,
                    },
                }
            },
            _ => None,
        }
    }

    /// The number of arguments that the class at `class` takes when it is
    /// called: what its initializer takes, or none if it has no initializer.
    pub fn arity(heap: &Heap, class: usize) -> (r: usize)
        requires
            heap.well_formed(),
            heap.is_class(class),
        ensures
            r == arity_of(heap.callables@, class as int),
    {
        let name = String::from_str("init");
        match Self::find_method(heap, class, &name) {
            Some(LoxValue::Callable(m)) => match &heap.callables[m] {
                LoxCallable::Function { declaration, .. } => declaration.params.len(),
                _ => 0,
            },
            _ => 0,
        }
    }
}

/// A class's own method comes before what its superclass offers, and a name
/// that the class does not define itself is looked up in the superclass.
pub proof fn law_own_method_first(heap: Heap, class: int, name: Seq<char>)
    requires
        heap.well_formed(),
        0 <= class < heap.callables@.len(),
        heap.callables@[class] is Class,
    ensures
        ({
            let c = heap.callables@[class]->class;
            &&& c.methods@.contains_key(name) ==> method_of(heap.callables@, class, name) == Some(
                c.methods@[name],
            )
            &&& !c.methods@.contains_key(name) ==> method_of(heap.callables@, class, name)
                == match c.superclass {
                Some(s) => method_of(heap.callables@, s as int, name),
                None => None,
            }
        }),
{
    assert(heap.callable_ok(class));
}

} // verus!
