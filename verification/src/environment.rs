//! Scope frames. A frame binds names to values and may link to the frame
//! that encloses it. Frames live side by side in a list and name each other
//! by position, so that any number of inner frames and closures can share one
//! enclosing frame and see each other's writes to it.
use vstd::prelude::*;
use crate::table::Table;
use crate::token::Token;
use crate::value::{undefined_variable, undefined_variable_error, LoxValue, RuntimeEvent};

verus! {

/// One scope frame.
pub struct Environment {
    values: Table<LoxValue>,
    enclosing: Option<usize>,
}

/// Every link leads to a frame that was created earlier, so a chain of links
/// never comes back to where it started.
pub open spec fn linked(frames: Seq<Environment>) -> bool {
    forall|i: int|
        0 <= i < frames.len() ==> match (#[trigger] frames[i]).parent() {
            Some(p) => p < i,
            None => true,
        }
}

/// The frame reached from `this` after exactly `hops` links, if the chain is
/// that long.
pub open spec fn hop(frames: Seq<Environment>, this: int, hops: nat) -> Option<int>
    decreases hops,
{
    if hops == 0 {
        Some(this)
    } else if 0 <= this < frames.len() {
        match frames[this].parent() {
            Some(p) => hop(frames, p as int, (hops - 1) as nat),
            None => None,
        }
    } else {
        None
    }
}

/// The outermost frame of the chain that starts at `this`.
pub open spec fn outermost(frames: Seq<Environment>, this: int) -> int
    decreases this,
{
    if 0 <= this < frames.len() {
        match frames[this].parent() {
            Some(p) => if p < this {
                outermost(frames, p as int)
            } else {
                this
            },
            None => this,
        }
    } else {
        this
    }
}

/// The frame that a scope distance leads to: a known distance is walked hop
/// by hop, an unknown one means the outermost frame.
pub open spec fn target(frames: Seq<Environment>, this: int, distance: Option<usize>) -> Option<
    int,
> {
    match distance {
        Some(d) => hop(frames, this, d as nat),
        None => Some(outermost(frames, this)),
    }
}

/// `after` is `before` with `name` bound to `value` in frame `at`, and
/// nothing else changed.
pub open spec fn rebound(
    before: Seq<Environment>,
    after: Seq<Environment>,
    at: int,
    name: Seq<char>,
    value: LoxValue,
) -> bool {
    &&& after.len() == before.len()
    &&& 0 <= at < before.len()
    &&& after[at].parent() == before[at].parent()
    &&& after[at].bindings() == before[at].bindings().insert(name, value)
    &&& forall|i: int| 0 <= i < before.len() && i != at ==> after[i] == before[i]
}

impl Environment {
    /// The bindings of this frame.
    pub closed spec fn bindings(&self) -> Map<Seq<char>, LoxValue> {
        self.values@
    }

    /// The frame that encloses this one, if any.
    pub closed spec fn parent(&self) -> Option<usize> {
        self.enclosing
    }

    /// A frame without bindings and without an enclosing frame.
    pub fn new() -> (r: Environment)
        ensures
            r.bindings() == Map::<Seq<char>, LoxValue>::empty(),
            r.parent() is None,
    {
        Environment { values: Table::new(), enclosing: None }
    }

    /// A frame without bindings inside the frame `enclosing`.
    pub fn new_enclosing(enclosing: usize) -> (r: Environment)
        ensures
            r.bindings() == Map::<Seq<char>, LoxValue>::empty(),
            r.parent() == Some(enclosing),
    {
        Environment { values: Table::new(), enclosing: Some(enclosing) }
    }

    /// Binds `name` to `value` in this frame, whether or not it was bound.
    pub fn define(&mut self, name: String, value: LoxValue)
        ensures
            final(self).bindings() == old(self).bindings().insert(name@, value),
            final(self).parent() == old(self).parent(),
    {
        self.values.insert(name, value);
    }

    /// The frame that encloses this one, if any.
    pub fn enclosing(&self) -> (r: Option<usize>)
        ensures
            r == self.parent(),
    {
        self.enclosing
    }

    /// Whether the scope distance leads to a frame: whether the chain that
    /// starts at `this` has `distance` links. An unknown distance always
    /// leads to the outermost frame.
    pub fn reaches(frames: &Vec<Environment>, this: usize, distance: Option<usize>) -> (r: bool)
        requires
            linked(frames@),
            this < frames.len(),
        ensures
            r == target(frames@, this as int, distance).is_some(),
    {
        match distance {
            None => true,
            Some(d) => {
                let mut current = this;
                let mut left = d;
                while left > 0
                    invariant
                        linked(frames@),
                        current < frames.len(),
                        distance == Some(d),
                        hop(frames@, this as int, d as nat) == hop(
                            frames@,
                            current as int,
                            left as nat,
                        ),
                    decreases left,
                {
                    match frames[current].enclosing {
                        Some(p) => {
                            current = p;
                            left -= 1;
                        },
                        None => {
                            assert(hop(frames@, current as int, left as nat) is None);
                            return false;
                        },
                    }
                }
                true
            },
        }
    }

    /// The frame that the scope distance leads to.
    fn ancestor(frames: &Vec<Environment>, this: usize, distance: Option<usize>) -> (r: usize)
        requires
            linked(frames@),
            this < frames.len(),
            target(frames@, this as int, distance).is_some(),
        ensures
            Some(r as int) == target(frames@, this as int, distance),
            r <= this,
    {
        let mut current = this;
        match distance {
            Some(d) => {
                let mut left = d;
                while left > 0
                    invariant
                        linked(frames@),
                        current <= this < frames.len(),
                        hop(frames@, this as int, d as nat).is_some(),
                        hop(frames@, this as int, d as nat) == hop(
                            frames@,
                            current as int,
                            left as nat,
                        ),
                    decreases left,
                {
                    match frames[current].enclosing {
                        Some(p) => {
                            current = p;
                            left -= 1;
                        },
                        None => {
                            assert(false);
                        },
                    }
                }
            },
            None => {
                loop
                    invariant
                        linked(frames@),
                        current <= this < frames.len(),
                        outermost(frames@, this as int) == outermost(frames@, current as int),
                    ensures
                        current <= this,
                        current as int == outermost(frames@, this as int),
                    decreases current,
                {
                    match frames[current].enclosing {
                        Some(p) => {
                            current = p;
                        },
                        None => {
                            break;
                        },
                    }
                }
            },
        }
        current
    }

    /// Reads `name` in this frame.
    fn get_this(&self, name: &Token) -> (r: Result<LoxValue, RuntimeEvent>)
        ensures
            match r {
                Ok(value) => self.bindings().contains_key(name.lexeme@) && value
                    == self.bindings()[name.lexeme@],
                Err(event) => !self.bindings().contains_key(name.lexeme@) && event.is_error(
                    *name,
                    undefined_variable(name.lexeme@),
                ),
            },
    {
        match self.values.get(&name.lexeme) {
            Some(value) => Ok(value.clone()),
            None => Err(undefined_variable_error(name)),
        }
    }

    /// Overwrites the binding of `name` in this frame.
    fn assign_this(&mut self, name: &Token, value: LoxValue) -> (r: Result<(), RuntimeEvent>)
        ensures
            final(self).parent() == old(self).parent(),
            match r {
                Ok(_) => old(self).bindings().contains_key(name.lexeme@) && final(self).bindings()
                    == old(self).bindings().insert(name.lexeme@, value),
                Err(event) => !old(self).bindings().contains_key(name.lexeme@) && *final(self)
                    == *old(self) && event.is_error(*name, undefined_variable(name.lexeme@)),
            },
    {
        if self.values.contains_key(&name.lexeme) {
            self.values.insert(name.lexeme.clone(), value);
            Ok(())
        } else {
            Err(undefined_variable_error(name))
        }
    }

    /// Reads `name` in the frame that `distance` leads to from `this`. The
    /// value is the one bound there; a name that is not bound there is an
    /// undefined variable.
    pub fn get_at(
        frames: &Vec<Environment>,
        this: usize,
        distance: Option<usize>,
        name: &Token,
    ) -> (r: Result<LoxValue, RuntimeEvent>)
        requires
            linked(frames@),
            this < frames.len(),
            target(frames@, this as int, distance).is_some(),
        ensures
            ({
                let at = target(frames@, this as int, distance).unwrap();
                &&& 0 <= at <= this
                &&& match r {
                    Ok(value) => frames@[at].bindings().contains_key(name.lexeme@) && value
                        == frames@[at].bindings()[name.lexeme@],
                    Err(event) => !frames@[at].bindings().contains_key(name.lexeme@)
                        && event.is_error(*name, undefined_variable(name.lexeme@)),
                }
            }),
    {
        let at = Self::ancestor(frames, this, distance);
        frames[at].get_this(name)
    }

    /// Overwrites the binding of `name` in the frame that `distance` leads to
    /// from `this`. A name that is not bound there is an undefined variable,
    /// and nothing changes.
    pub fn assign_at(
        frames: &mut Vec<Environment>,
        this: usize,
        distance: Option<usize>,
        name: &Token,
        value: LoxValue,
    ) -> (r: Result<(), RuntimeEvent>)
        requires
            linked(old(frames)@),
            this < old(frames).len(),
            target(old(frames)@, this as int, distance).is_some(),
        ensures
            ({
                let at = target(old(frames)@, this as int, distance).unwrap();
                match r {
                    Ok(_) => old(frames)@[at].bindings().contains_key(name.lexeme@) && rebound(
                        old(frames)@,
                        final(frames)@,
                        at,
                        name.lexeme@,
                        value,
                    ),
                    Err(event) => !old(frames)@[at].bindings().contains_key(name.lexeme@)
                        && *final(frames) == *old(frames) && event.is_error(
                        *name,
                        undefined_variable(name.lexeme@),
                    ),
                }
            }),
    {
        let at = Self::ancestor(frames, this, distance);
        if frames[at].values.contains_key(&name.lexeme) {
            frames[at].assign_this(name, value)
        } else {
            Err(undefined_variable_error(name))
        }
    }
}

/// Two lists of frames have the same links.
pub open spec fn same_links(before: Seq<Environment>, after: Seq<Environment>) -> bool {
    &&& after.len() == before.len()
    &&& forall|i: int| 0 <= i < before.len() ==> (#[trigger] after[i]).parent() == before[i].parent()
}

proof fn lemma_same_links_same_hop(
    before: Seq<Environment>,
    after: Seq<Environment>,
    this: int,
    hops: nat,
)
    requires
        same_links(before, after),
    ensures
        hop(after, this, hops) == hop(before, this, hops),
    decreases hops,
{
    if hops > 0 && 0 <= this < before.len() {
        assert(after[this].parent() == before[this].parent());
        match before[this].parent() {
            Some(p) => lemma_same_links_same_hop(before, after, p as int, (hops - 1) as nat),
            None => {},
        }
    }
}

proof fn lemma_same_links_same_outermost(
    before: Seq<Environment>,
    after: Seq<Environment>,
    this: int,
)
    requires
        same_links(before, after),
    ensures
        outermost(after, this) == outermost(before, this),
    decreases this,
{
    if 0 <= this < before.len() {
        assert(after[this].parent() == before[this].parent());
        match before[this].parent() {
            Some(p) => {
                if p < this {
                    lemma_same_links_same_outermost(before, after, p as int);
                }
            },
            None => {},
        }
    }
}

/// Binding a name changes no link, so every scope distance leads where it
/// led before.
pub proof fn law_binding_keeps_targets(
    before: Seq<Environment>,
    after: Seq<Environment>,
    at: int,
    name: Seq<char>,
    value: LoxValue,
    this: int,
    distance: Option<usize>,
)
    requires
        rebound(before, after, at, name, value),
    ensures
        target(after, this, distance) == target(before, this, distance),
{
    assert(same_links(before, after)) by {
        assert forall|i: int| 0 <= i < before.len() implies (#[trigger] after[i]).parent()
            == before[i].parent() by {
            if i != at {
                assert(after[i] == before[i]);
            }
        }
    }
    match distance {
        Some(d) => lemma_same_links_same_hop(before, after, this, d as nat),
        None => lemma_same_links_same_outermost(before, after, this),
    }
}

/// Frames are shared, not copied: once a name is bound or assigned in a
/// frame, whoever reaches that frame, from whatever frame and over whatever
/// distance, reads the new value. This is what lets a closure see what was
/// assigned, after it was made, to a variable that it captured.
pub proof fn law_writes_are_shared(
    before: Seq<Environment>,
    after: Seq<Environment>,
    at: int,
    name: Seq<char>,
    value: LoxValue,
    reader: int,
    distance: Option<usize>,
)
    requires
        rebound(before, after, at, name, value),
        target(before, reader, distance) == Some(at),
    ensures
        target(after, reader, distance) == Some(at),
        after[at].bindings().contains_key(name),
        after[at].bindings()[name] == value,
{
    law_binding_keeps_targets(before, after, at, name, value, reader, distance);
}

/// A read gives what was last bound: binding another name in the same frame,
/// or any name in another frame, leaves what a name is bound to as it was. In
/// particular a name that is declared again in an inner frame shadows the
/// outer binding without touching it.
pub proof fn law_other_bindings_stay(
    before: Seq<Environment>,
    after: Seq<Environment>,
    at: int,
    name: Seq<char>,
    value: LoxValue,
    frame: int,
    other: Seq<char>,
)
    requires
        rebound(before, after, at, name, value),
        0 <= frame < before.len(),
        frame != at || other != name,
    ensures
        after[frame].bindings().contains_key(other) == before[frame].bindings().contains_key(other),
        after[frame].bindings().contains_key(other) ==> after[frame].bindings()[other]
            == before[frame].bindings()[other],
{
    if frame != at {
        assert(after[frame] == before[frame]);
    }
}

} // verus!
