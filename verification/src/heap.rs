//! The heap: every scope frame, callable and instance that a run has made,
//! each named by its place. A value that is a function, a class or an
//! instance holds such a place, and so do the links between frames, from a
//! function to the frame it was defined in, from a class to its superclass
//! and its methods, and from an instance to its class. Nothing is ever
//! removed, so a place, once given out, always names the same thing.
use vstd::prelude::*;
use crate::environment::{linked, rebound, target, Environment};
use crate::lox_callable::LoxCallable;
use crate::lox_class::LoxClass;
use crate::lox_instance::LoxInstance;
use crate::token::Token;
use crate::value::{undefined_variable, LoxValue, RuntimeEvent};

verus! {

/// The heap of a run.
pub struct Heap<'a> {
    pub frames: Vec<Environment>,
    pub callables: Vec<LoxCallable<'a>>,
    pub instances: Vec<LoxInstance>,
}

/// `after` is `before` with one more frame, which has the given enclosing
/// frame and bindings.
pub open spec fn frame_pushed(
    before: Seq<Environment>,
    after: Seq<Environment>,
    parent: Option<usize>,
    bindings: Map<Seq<char>, LoxValue>,
) -> bool {
    &&& after.len() == before.len() + 1
    &&& after.drop_last() == before
    &&& after.last().parent() == parent
    &&& after.last().bindings() == bindings
}

/// The method that a class offers under a name: its own, or else the one
/// that its superclass offers. A class's own method always comes first.
pub open spec fn method_of<'a>(callables: Seq<LoxCallable<'a>>, class: int, name: Seq<char>) -> Option<
    usize,
>
    decreases class,
{
    if 0 <= class < callables.len() {
        match callables[class] {
            LoxCallable::Class { class: c } => if c.methods@.contains_key(name) {
                Some(c.methods@[name])
            } else {
                match c.superclass {
                    Some(s) => if s < class {
                        method_of(callables, s as int, name)
                    } else {
                        None
                    },
                    None => None,
                }
            },
            _ => None,
        }
    } else {
        None
    }
}

/// The number of arguments that a callable takes: none for the clock, one
/// for each parameter of a function, and for a class what its initializer
/// takes, or none if it has no initializer.
pub open spec fn arity_of<'a>(callables: Seq<LoxCallable<'a>>, callable: int) -> nat {
    match callables[callable] {
        LoxCallable::ClockFunction => 0,
        LoxCallable::Function { declaration, .. } => declaration.params@.len(),
        LoxCallable::Class { .. } => match method_of(callables, callable, "init"@) {
            Some(initializer) => match callables[initializer as int] {
                LoxCallable::Function { declaration, .. } => declaration.params@.len(),
                _ => 0,
            },
            None => 0,
        },
    }
}

impl<'a> Heap<'a> {
    /// Whether a value names only what the heap holds.
    pub open spec fn value_ok(self, value: LoxValue) -> bool {
        match value {
            LoxValue::Callable(c) => c < self.callables@.len(),
            LoxValue::Instance(k) => k < self.instances@.len(),
            _ => true,
        }
    }

    /// Whether every value of a table names only what the heap holds.
    pub open spec fn values_ok(self, values: Map<Seq<char>, LoxValue>) -> bool {
        forall|name: Seq<char>| #[trigger]
            values.contains_key(name) ==> self.value_ok(values[name])
    }

    /// Whether a frame links to an earlier frame only and binds valid values.
    pub open spec fn frame_ok(self, i: int) -> bool {
        &&& match self.frames@[i].parent() {
            Some(p) => p < i,
            None => true,
        }
        &&& self.values_ok(self.frames@[i].bindings())
    }

    /// Whether a class has an earlier class as its superclass, if it has one,
    /// and earlier functions as its methods.
    pub open spec fn class_ok(self, class: LoxClass, c: int) -> bool {
        &&& match class.superclass {
            Some(s) => s < c && self.callables@[s as int] is Class,
            None => true,
        }
        &&& forall|name: Seq<char>| #[trigger]
            class.methods@.contains_key(name) ==> class.methods@[name] < c
                && self.callables@[class.methods@[name] as int] is Function
    }

    /// Whether a callable names only what the heap holds.
    pub open spec fn callable_ok(self, c: int) -> bool {
        match self.callables@[c] {
            LoxCallable::ClockFunction => true,
            LoxCallable::Function { closure, .. } => closure < self.frames@.len(),
            LoxCallable::Class { class } => self.class_ok(class, c),
        }
    }

    /// Whether an instance is of a class of the heap and holds valid values.
    pub open spec fn instance_ok(self, k: int) -> bool {
        &&& self.instances@[k].klass < self.callables@.len()
        &&& self.callables@[self.instances@[k].klass as int] is Class
        &&& self.values_ok(self.instances@[k].fields@)
    }

    /// The heap's invariant: every place that something in the heap holds
    /// is a place of the heap; links between frames and from a class to its
    /// superclass and methods lead to what was made earlier, so that no chain
    /// of them comes back to where it started.
    pub open spec fn well_formed(self) -> bool {
        &&& forall|i: int| 0 <= i < self.frames@.len() ==> #[trigger] self.frame_ok(i)
        &&& forall|c: int| 0 <= c < self.callables@.len() ==> #[trigger] self.callable_ok(c)
        &&& forall|k: int| 0 <= k < self.instances@.len() ==> #[trigger] self.instance_ok(k)
    }

    /// Whether the heap may take this callable as its next one.
    pub open spec fn admits(self, callable: LoxCallable<'a>) -> bool {
        match callable {
            LoxCallable::ClockFunction => true,
            LoxCallable::Function { closure, .. } => closure < self.frames@.len(),
            LoxCallable::Class { class } => self.class_ok(class, self.callables@.len() as int),
        }
    }

    /// Whether `c` is a place of a function.
    pub open spec fn is_function(self, c: usize) -> bool {
        c < self.callables@.len() && self.callables@[c as int] is Function
    }

    /// Whether `c` is a place of a class.
    pub open spec fn is_class(self, c: usize) -> bool {
        c < self.callables@.len() && self.callables@[c as int] is Class
    }

    /// The frames of a well-formed heap form chains that end.
    pub proof fn lemma_linked(self)
        requires
            self.well_formed(),
        ensures
            linked(self.frames@),
    {
        assert forall|i: int| 0 <= i < self.frames@.len() implies match (#[trigger] self.frames@[i]).parent() {
            Some(p) => p < i,
            None => true,
        } by {
            assert(self.frame_ok(i));
        }
    }

    /// An empty heap.
    pub fn new() -> (r: Heap<'a>)
        ensures
            r.well_formed(),
            r.frames@.len() == 0,
            r.callables@.len() == 0,
            r.instances@.len() == 0,
    {
        Heap { frames: Vec::new(), callables: Vec::new(), instances: Vec::new() }
    }

    /// Makes a frame without bindings, inside `enclosing` if that is given.
    pub fn new_frame(&mut self, enclosing: Option<usize>) -> (id: usize)
        requires
            old(self).well_formed(),
            match enclosing {
                Some(p) => p < old(self).frames@.len(),
                None => true,
            },
        ensures
            final(self).well_formed(),
            id == old(self).frames@.len(),
            frame_pushed(old(self).frames@, final(self).frames@, enclosing, Map::empty()),
            final(self).callables == old(self).callables,
            final(self).instances == old(self).instances,
    {
        let id = self.frames.len();
        let frame = match enclosing {
            Some(p) => Environment::new_enclosing(p),
            None => Environment::new(),
        };
        self.frames.push(frame);
        proof {
            assert(self.frames@.drop_last() =~= old(self).frames@);
            assert forall|i: int| 0 <= i < self.frames@.len() implies #[trigger] self.frame_ok(i) by {
                if i < id {
                    assert(old(self).frame_ok(i));
                }
            }
            assert forall|c: int| 0 <= c < self.callables@.len() implies #[trigger] self.callable_ok(c) by {
                assert(old(self).callable_ok(c));
            }
            assert forall|k: int| 0 <= k < self.instances@.len() implies #[trigger] self.instance_ok(k) by {
                assert(old(self).instance_ok(k));
            }
        }
        id
    }

    /// Binds `name` to `value` in a frame, whether or not it was bound there.
    pub fn define(&mut self, frame: usize, name: String, value: LoxValue)
        requires
            old(self).well_formed(),
            frame < old(self).frames@.len(),
            old(self).value_ok(value),
        ensures
            final(self).well_formed(),
            rebound(old(self).frames@, final(self).frames@, frame as int, name@, value),
            final(self).callables == old(self).callables,
            final(self).instances == old(self).instances,
    {
        self.frames[frame].define(name, value);
        proof {
            assert forall|i: int| 0 <= i < self.frames@.len() implies #[trigger] self.frame_ok(i) by {
                assert(old(self).frame_ok(i));
            }
            assert forall|c: int| 0 <= c < self.callables@.len() implies #[trigger] self.callable_ok(c) by {
                assert(old(self).callable_ok(c));
            }
            assert forall|k: int| 0 <= k < self.instances@.len() implies #[trigger] self.instance_ok(k) by {
                assert(old(self).instance_ok(k));
            }
        }
    }

    /// Whether a scope distance leads to a frame from `frame`.
    pub fn reaches(&self, frame: usize, distance: Option<usize>) -> (r: bool)
        requires
            self.well_formed(),
            frame < self.frames@.len(),
        ensures
            r == target(self.frames@, frame as int, distance).is_some(),
    {
        proof {
            self.lemma_linked();
        }
        Environment::reaches(&self.frames, frame, distance)
    }

    /// Reads `name` in the frame that `distance` leads to from `frame`.
    pub fn get_at(&self, frame: usize, distance: Option<usize>, name: &Token) -> (r: Result<
        LoxValue,
        RuntimeEvent,
    >)
        requires
            self.well_formed(),
            frame < self.frames@.len(),
            target(self.frames@, frame as int, distance).is_some(),
        ensures
            ({
                let at = target(self.frames@, frame as int, distance).unwrap();
                &&& 0 <= at <= frame
                &&& match r {
                    Ok(value) => {
                        &&& self.frames@[at].bindings().contains_key(name.lexeme@)
                        &&& value == self.frames@[at].bindings()[name.lexeme@]
                        &&& self.value_ok(value)
                    },
                    Err(event) => {
                        &&& !self.frames@[at].bindings().contains_key(name.lexeme@)
                        &&& event.is_error(*name, undefined_variable(name.lexeme@))
                    },
                }
            }),
    {
        proof {
            self.lemma_linked();
        }
        let r = Environment::get_at(&self.frames, frame, distance, name);
        proof {
            let at = target(self.frames@, frame as int, distance).unwrap();
            assert(self.frame_ok(at));
        }
        r
    }

    /// Overwrites the binding of `name` in the frame that `distance` leads to
    /// from `frame`. If the name is not bound there, nothing changes.
    pub fn assign_at(
        &mut self,
        frame: usize,
        distance: Option<usize>,
        name: &Token,
        value: LoxValue,
    ) -> (r: Result<(), RuntimeEvent>)
        requires
            old(self).well_formed(),
            frame < old(self).frames@.len(),
            target(old(self).frames@, frame as int, distance).is_some(),
            old(self).value_ok(value),
        ensures
            final(self).well_formed(),
            final(self).callables == old(self).callables,
            final(self).instances == old(self).instances,
            ({
                let at = target(old(self).frames@, frame as int, distance).unwrap();
                match r {
                    Ok(_) => {
                        &&& old(self).frames@[at].bindings().contains_key(name.lexeme@)
                        &&& rebound(
                            old(self).frames@,
                            final(self).frames@,
                            at,
                            name.lexeme@,
                            value,
                        )
                    },
                    Err(event) => {
                        &&& !old(self).frames@[at].bindings().contains_key(name.lexeme@)
                        &&& *final(self) == *old(self)
                        &&& event.is_error(*name, undefined_variable(name.lexeme@))
                    },
                }
            }),
    {
        proof {
            self.lemma_linked();
        }
        let r = Environment::assign_at(&mut self.frames, frame, distance, name, value);
        proof {
            assert forall|i: int| 0 <= i < self.frames@.len() implies #[trigger] self.frame_ok(i) by {
                assert(old(self).frame_ok(i));
            }
            assert forall|c: int| 0 <= c < self.callables@.len() implies #[trigger] self.callable_ok(c) by {
                assert(old(self).callable_ok(c));
            }
            assert forall|k: int| 0 <= k < self.instances@.len() implies #[trigger] self.instance_ok(k) by {
                assert(old(self).instance_ok(k));
            }
        }
        r
    }

    /// Takes a callable into the heap.
    pub fn new_callable(&mut self, callable: LoxCallable<'a>) -> (id: usize)
        requires
            old(self).well_formed(),
            old(self).admits(callable),
        ensures
            final(self).well_formed(),
            id == old(self).callables@.len(),
            final(self).callables@ == old(self).callables@.push(callable),
            final(self).frames == old(self).frames,
            final(self).instances == old(self).instances,
    {
        let id = self.callables.len();
        self.callables.push(callable);
        proof {
            assert forall|i: int| 0 <= i < self.frames@.len() implies #[trigger] self.frame_ok(i) by {
                assert(old(self).frame_ok(i));
            }
            assert forall|c: int| 0 <= c < self.callables@.len() implies #[trigger] self.callable_ok(c) by {
                if c < id {
                    assert(old(self).callable_ok(c));
                }
            }
            assert forall|k: int| 0 <= k < self.instances@.len() implies #[trigger] self.instance_ok(k) by {
                assert(old(self).instance_ok(k));
            }
        }
        id
    }

    /// Makes an instance of a class, without fields.
    pub fn new_instance(&mut self, class: usize) -> (id: usize)
        requires
            old(self).well_formed(),
            old(self).is_class(class),
        ensures
            final(self).well_formed(),
            id == old(self).instances@.len(),
            final(self).instances@.len() == old(self).instances@.len() + 1,
            final(self).instances@.drop_last() == old(self).instances@,
            final(self).instances@.last().klass == class,
            final(self).instances@.last().fields@ == Map::<Seq<char>, LoxValue>::empty(),
            final(self).frames == old(self).frames,
            final(self).callables == old(self).callables,
    {
        let id = self.instances.len();
        self.instances.push(LoxInstance::new(class));
        proof {
            assert(self.instances@.drop_last() =~= old(self).instances@);
            assert forall|i: int| 0 <= i < self.frames@.len() implies #[trigger] self.frame_ok(i) by {
                assert(old(self).frame_ok(i));
            }
            assert forall|c: int| 0 <= c < self.callables@.len() implies #[trigger] self.callable_ok(c) by {
                assert(old(self).callable_ok(c));
            }
            assert forall|k: int| 0 <= k < self.instances@.len() implies #[trigger] self.instance_ok(k) by {
                if k < id {
                    assert(old(self).instance_ok(k));
                }
            }
        }
        id
    }

    /// Sets a field of an instance, whether or not it was set before.
    pub fn set_field(&mut self, instance: usize, name: &Token, value: LoxValue)
        requires
            old(self).well_formed(),
            instance < old(self).instances@.len(),
            old(self).value_ok(value),
        ensures
            final(self).well_formed(),
            final(self).frames == old(self).frames,
            final(self).callables == old(self).callables,
            final(self).instances@.len() == old(self).instances@.len(),
            final(self).instances@[instance as int].klass == old(self).instances@[instance as int].klass,
            final(self).instances@[instance as int].fields@ == old(self).instances@[instance as int].fields@.insert(name.lexeme@, value),
            forall|k: int|
                0 <= k < old(self).instances@.len() && k != instance ==> final(self).instances@[k]
                    == old(self).instances@[k],
    {
        let _ = self.instances[instance].set(name, value);
        proof {
            assert forall|i: int| 0 <= i < self.frames@.len() implies #[trigger] self.frame_ok(i) by {
                assert(old(self).frame_ok(i));
            }
            assert forall|c: int| 0 <= c < self.callables@.len() implies #[trigger] self.callable_ok(c) by {
                assert(old(self).callable_ok(c));
            }
            assert forall|k: int| 0 <= k < self.instances@.len() implies #[trigger] self.instance_ok(k) by {
                assert(old(self).instance_ok(k));
            }
        }
    }
}

} // verus!
