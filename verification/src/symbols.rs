//! The symbol table: each name is bound to one value.

use vstd::prelude::*;

verus! {

#[derive(Debug)]
struct Binding {
    name: String,
    value: i64,
}

/// The names of a list of bindings, in the order of the list.
spec fn names(entries: Seq<Binding>) -> Seq<Seq<char>> {
    Seq::new(entries.len(), |i: int| entries[i].name@)
}

/// In a list without duplicates an element has one index.
proof fn lemma_index_unique(list: Seq<Seq<char>>, name: Seq<char>, i: int)
    requires
        list.no_duplicates(),
        0 <= i < list.len(),
        list[i] == name,
    ensures
        list.contains(name),
        list.index_of(name) == i,
{
}

/// A mapping from names to values. Its view is the `Map` it stands for.
///
/// No name occurs twice: binding a name again replaces its value.
#[derive(Debug)]
pub struct SymbolTable {
    entries: Vec<Binding>,
}

impl View for SymbolTable {
    type V = Map<Seq<char>, i64>;

    closed spec fn view(&self) -> Map<Seq<char>, i64> {
        Map::new(
            |name: Seq<char>| names(self.entries@).contains(name),
            |name: Seq<char>| self.entries@[names(self.entries@).index_of(name)].value,
        )
    }
}

impl SymbolTable {
    #[verifier::type_invariant]
    spec fn distinct(self) -> bool {
        names(self.entries@).no_duplicates()
    }

    /// The table that binds no name.
    pub fn new() -> (table: SymbolTable)
        ensures
            table@ == Map::<Seq<char>, i64>::empty(),
    {
        let table = SymbolTable { entries: Vec::new() };
        assert(table@ =~= Map::<Seq<char>, i64>::empty());
        table
    }

    /// The number of names that are bound.
    pub fn len(&self) -> (n: usize)
        ensures
            self@.dom().finite(),
            n == self@.dom().len(),
    {
        proof {
            use_type_invariant(self);
            let list = names(self.entries@);
            vstd::seq_lib::seq_to_set_is_finite(list);
            list.unique_seq_to_set();
            assert(self@.dom() =~= list.to_set());
        }
        self.entries.len()
    }

    /// The value bound to `name`, if there is one.
    pub fn lookup(&self, name: &String) -> (value: Option<i64>)
        ensures
            value == if self@.contains_key(name@) {
                Some(self@[name@])
            } else {
                None
            },
    {
        proof {
            use_type_invariant(self);
        }
        let mut i: usize = 0;
        while i < self.entries.len()
            invariant
                i <= self.entries.len(),
                names(self.entries@).no_duplicates(),
                forall|k: int| 0 <= k < i ==> names(self.entries@)[k] != name@,
            decreases self.entries.len() - i,
        {
            if self.entries[i].name == *name {
                proof {
                    lemma_index_unique(names(self.entries@), name@, i as int);
                }
                return Some(self.entries[i].value);
            }
            i += 1;
        }
        None
    }

    /// The value bound to `name`, if there is one.
    pub fn get(&self, name: &str) -> (value: Option<i64>)
        ensures
            value == if self@.contains_key(name@) {
                Some(self@[name@])
            } else {
                None
            },
    {
        let key = String::from_str(name);
        self.lookup(&key)
    }

    /// Binds `name` to `value`, in place of any value it had.
    pub fn insert(&mut self, name: String, value: i64)
        ensures
            final(self)@ == old(self)@.insert(name@, value),
    {
        proof {
            use_type_invariant(&*self);
        }
        let ghost before = self.entries@;
        let ghost key = name@;
        let mut entries: Vec<Binding> = Vec::new();
        core::mem::swap(&mut entries, &mut self.entries);
        let mut i: usize = 0;
        while i < entries.len() && !(entries[i].name == name)
            invariant
                i <= entries.len(),
                entries@ == before,
                forall|k: int| 0 <= k < i ==> names(before)[k] != name@,
            decreases entries.len() - i,
        {
            i += 1;
        }
        if i < entries.len() {
            entries.set(i, Binding { name, value });
            proof {
                assert(names(entries@) =~= names(before));
                lemma_index_unique(names(before), key, i as int);
            }
        } else {
            entries.push(Binding { name, value });
            proof {
                let last = before.len() as int;
                assert(names(entries@) =~= names(before).push(key));
                lemma_index_unique(names(entries@), key, last);
                assert forall|n: Seq<char>| names(before).contains(n) implies names(
                    entries@,
                ).contains(n) && names(entries@).index_of(n) == names(before).index_of(n) by {
                    let j = names(before).index_of(n);
                    assert(names(entries@)[j] == n);
                    lemma_index_unique(names(entries@), n, j);
                }
                assert forall|n: Seq<char>| names(entries@).contains(n) implies n == key || names(
                    before,
                ).contains(n) by {
                    let j = names(entries@).index_of(n);
                    if j < last {
                        assert(names(before)[j] == n);
                    }
                }
            }
        }
        self.entries = entries;
        assert(self@ =~= old(self)@.insert(key, value));
    }

    /// Every binding once, as pairs of a name and its value.
    pub fn entries(&self) -> (pairs: Vec<(String, i64)>)
        ensures
            pairs.len() == self@.dom().len(),
            forall|i: int|
                0 <= i < pairs.len() ==> self@.contains_key(#[trigger] pairs[i].0@) && self@[pairs[i].0@]
                    == pairs[i].1,
            forall|i: int, j: int|
                0 <= i < j < pairs.len() ==> (#[trigger] pairs[i]).0@ != (#[trigger] pairs[j]).0@,
    {
        proof {
            use_type_invariant(self);
            let list = names(self.entries@);
            list.unique_seq_to_set();
            assert(self@.dom() =~= list.to_set());
        }
        let mut pairs: Vec<(String, i64)> = Vec::new();
        let mut i: usize = 0;
        while i < self.entries.len()
            invariant
                i <= self.entries.len(),
                names(self.entries@).no_duplicates(),
                self.entries.len() == self@.dom().len(),
                pairs.len() == i,
                forall|k: int|
                    0 <= k < i ==> (#[trigger] pairs[k]).0@ == self.entries[k].name@ && pairs[k].1
                        == self.entries[k].value,
            decreases self.entries.len() - i,
        {
            pairs.push((self.entries[i].name.clone(), self.entries[i].value));
            i += 1;
        }
        proof {
            assert forall|k: int| 0 <= k < pairs.len() implies self@.contains_key(
                #[trigger] pairs[k].0@,
            ) && self@[pairs[k].0@] == pairs[k].1 by {
                lemma_index_unique(names(self.entries@), pairs[k].0@, k);
            }
            assert forall|k: int, j: int| 0 <= k < j < pairs.len() implies (#[trigger] pairs[k]).0@
                != (#[trigger] pairs[j]).0@ by {
                assert(names(self.entries@)[k] != names(self.entries@)[j]);
            }
        }
        pairs
    }
}

impl Clone for SymbolTable {
    /// A table with the same bindings.
    fn clone(&self) -> (table: SymbolTable)
        ensures
            table@ == self@,
    {
        proof {
            use_type_invariant(self);
        }
        let mut entries: Vec<Binding> = Vec::new();
        let mut i: usize = 0;
        while i < self.entries.len()
            invariant
                i <= self.entries.len(),
                entries.len() == i,
                forall|k: int|
                    0 <= k < i ==> (#[trigger] entries[k]).name@ == self.entries[k].name@
                        && entries[k].value == self.entries[k].value,
            decreases self.entries.len() - i,
        {
            entries.push(
                Binding { name: self.entries[i].name.clone(), value: self.entries[i].value },
            );
            i += 1;
        }
        proof {
            assert(names(entries@) =~= names(self.entries@));
        }
        let table = SymbolTable { entries };
        assert(table@ =~= self@);
        table
    }
}

} // verus!
