//! A table from names to values, kept as a list of entries and read as a
//! finite map. It stands where a hash map keyed by text would stand: order of
//! insertion is not observable through its operations.
use vstd::prelude::*;

verus! {

/// A finite map from names to values.
pub struct Table<V> {
    entries: Vec<(String, V)>,
}

/// The map that a list of entries stands for: of two entries with one name,
/// the earlier one counts.
pub closed spec fn contents<V>(entries: Seq<(String, V)>) -> Map<Seq<char>, V>
    decreases entries.len(),
{
    if entries.len() == 0 {
        Map::empty()
    } else {
        let rest = contents(entries.drop_last());
        let last = entries.last();
        if rest.contains_key(last.0@) {
            rest
        } else {
            rest.insert(last.0@, last.1)
        }
    }
}

proof fn lemma_contents_domain<V>(entries: Seq<(String, V)>, key: Seq<char>)
    ensures
        contents(entries).contains_key(key) <==> exists|i: int|
            0 <= i < entries.len() && (#[trigger] entries[i]).0@ == key,
    decreases entries.len(),
{
    if entries.len() > 0 {
        let rest = entries.drop_last();
        lemma_contents_domain(rest, key);
        if contents(entries).contains_key(key) {
            if contents(rest).contains_key(key) {
                let i = choose|i: int| 0 <= i < rest.len() && (#[trigger] rest[i]).0@ == key;
                assert(entries[i].0@ == key);
            } else {
                assert(entries[entries.len() - 1].0@ == key);
            }
        }
        if exists|i: int| 0 <= i < entries.len() && (#[trigger] entries[i]).0@ == key {
            let i = choose|i: int| 0 <= i < entries.len() && (#[trigger] entries[i]).0@ == key;
            if i < rest.len() {
                assert(rest[i].0@ == key);
            }
        }
    }
}

proof fn lemma_contents_first<V>(entries: Seq<(String, V)>, key: Seq<char>, i: int)
    requires
        0 <= i < entries.len(),
        entries[i].0@ == key,
        forall|j: int| 0 <= j < i ==> (#[trigger] entries[j]).0@ != key,
    ensures
        contents(entries).contains_key(key),
        contents(entries)[key] == entries[i].1,
    decreases entries.len(),
{
    let rest = entries.drop_last();
    lemma_contents_domain(rest, key);
    if i == entries.len() - 1 {
        assert(!contents(rest).contains_key(key)) by {
            if contents(rest).contains_key(key) {
                let j = choose|j: int| 0 <= j < rest.len() && (#[trigger] rest[j]).0@ == key;
                assert(entries[j].0@ == key);
            }
        }
    } else {
        assert(rest[i] == entries[i]);
        assert forall|j: int| 0 <= j < i implies (#[trigger] rest[j]).0@ != key by {
            assert(rest[j] == entries[j]);
        }
        lemma_contents_first(rest, key, i);
    }
}

proof fn lemma_contents_update<V>(entries: Seq<(String, V)>, i: int, name: String, value: V)
    requires
        0 <= i < entries.len(),
        entries[i].0@ == name@,
        forall|j: int| 0 <= j < i ==> (#[trigger] entries[j]).0@ != name@,
    ensures
        contents(entries.update(i, (name, value))) == contents(entries).insert(name@, value),
    decreases entries.len(),
{
    let key = name@;
    let rest = entries.drop_last();
    let changed = entries.update(i, (name, value));
    lemma_contents_domain(rest, key);
    if i == entries.len() - 1 {
        assert(changed.drop_last() =~= rest);
        assert(!contents(rest).contains_key(key)) by {
            if contents(rest).contains_key(key) {
                let j = choose|j: int| 0 <= j < rest.len() && (#[trigger] rest[j]).0@ == key;
                assert(entries[j].0@ == key);
            }
        }
        assert(contents(changed) =~= contents(entries).insert(key, value));
    } else {
        assert(changed.drop_last() =~= rest.update(i, (name, value)));
        assert(rest[i] == entries[i]);
        assert forall|j: int| 0 <= j < i implies (#[trigger] rest[j]).0@ != key by {
            assert(rest[j] == entries[j]);
        }
        lemma_contents_update(rest, i, name, value);
        assert(contents(rest).contains_key(key));
        assert(changed.last() == entries.last());
        assert(contents(changed) =~= contents(entries).insert(key, value));
    }
}

impl<V> Table<V> {
    /// The table as a map from names to values.
    pub closed spec fn view(&self) -> Map<Seq<char>, V> {
        contents(self.entries@)
    }

    /// An empty table.
    pub fn new() -> (r: Self)
        ensures
            r@ == Map::<Seq<char>, V>::empty(),
    {
        Table { entries: Vec::new() }
    }

    fn position(&self, key: &String) -> (r: Option<usize>)
        ensures
            match r {
                Some(i) => {
                    &&& i < self.entries@.len()
                    &&& self.entries@[i as int].0@ == key@
                    &&& forall|j: int| 0 <= j < i ==> (#[trigger] self.entries@[j]).0@ != key@
                },
                None => forall|j: int|
                    0 <= j < self.entries@.len() ==> (#[trigger] self.entries@[j]).0@ != key@,
            },
    {
        let mut i: usize = 0;
        while i < self.entries.len()
            invariant
                i <= self.entries@.len(),
                forall|j: int| 0 <= j < i ==> (#[trigger] self.entries@[j]).0@ != key@,
            decreases self.entries@.len() - i,
        {
            if self.entries[i].0 == *key {
                return Some(i);
            }
            i += 1;
        }
        None
    }

    /// Whether the name has a value.
    pub fn contains_key(&self, key: &String) -> (r: bool)
        ensures
            r == self@.contains_key(key@),
    {
        let found = self.position(key);
        proof {
            lemma_contents_domain(self.entries@, key@);
        }
        found.is_some()
    }

    /// The value of a name, if it has one.
    pub fn get(&self, key: &String) -> (r: Option<&V>)
        ensures
            match r {
                Some(value) => self@.contains_key(key@) && *value == self@[key@],
                None => !self@.contains_key(key@),
            },
    {
        match self.position(key) {
            Some(i) => {
                proof {
                    lemma_contents_first(self.entries@, key@, i as int);
                }
                Some(&self.entries[i].1)
            },
            None => {
                proof {
                    lemma_contents_domain(self.entries@, key@);
                }
                None
            },
        }
    }

    /// Gives the name this value, whether or not it had one.
    pub fn insert(&mut self, key: String, value: V)
        ensures
            final(self)@ == old(self)@.insert(key@, value),
    {
        match self.position(&key) {
            Some(i) => {
                proof {
                    lemma_contents_update(self.entries@, i as int, key, value);
                }
                self.entries.set(i, (key, value));
            },
            None => {
                proof {
                    lemma_contents_domain(self.entries@, key@);
                    assert(self.entries@.push((key, value)).drop_last() =~= self.entries@);
                }
                self.entries.push((key, value));
            },
        }
    }
}

} // verus!
