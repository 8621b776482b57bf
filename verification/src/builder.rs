//! Builders for the data handed to a template. A hash that is built here
//! lists no name twice.

use crate::data::{distinct_names, lemma_vector_view, list_of, table_of, Data, Value};
use crate::entries::{find_entry, lemma_entry_index};
use vstd::prelude::*;
use vstd::string::*;

verus! {

/// Builds a `Data::Hash` entry by entry.
#[derive(Debug)]
pub struct HashBuilder {
    pub data: Vec<(String, Data)>,
}

/// Builds a `Data::Vector` item by item.
#[derive(Debug)]
pub struct VecBuilder {
    pub data: Vec<Data>,
}

impl View for HashBuilder {
    type V = Map<Seq<char>, Value>;

    open spec fn view(&self) -> Map<Seq<char>, Value> {
        table_of(self.data@)
    }
}

impl View for VecBuilder {
    type V = Seq<Value>;

    open spec fn view(&self) -> Seq<Value> {
        list_of(self.data@)
    }
}

/// Putting a value in the place of the last entry under a name gives the
/// mapping in which that name holds the value.
pub proof fn lemma_table_replace(
    entries: Seq<(String, Data)>,
    i: int,
    name: String,
    value: Data,
)
    requires
        0 <= i < entries.len(),
        entries[i].0@ == name@,
        forall|j: int| i < j < entries.len() ==> entries[j].0@ != name@,
    ensures
        table_of(entries.update(i, (name, value))) == table_of(entries).insert(name@, value@),
    decreases entries.len(),
{
    let changed = entries.update(i, (name, value));
    let rest = entries.drop_last();
    let last = entries.last();
    if i == entries.len() - 1 {
        assert(changed.drop_last() == rest);
        assert(table_of(rest).insert(name@, value@) =~= table_of(rest).insert(
            last.0@,
            last.1@,
        ).insert(name@, value@));
    } else {
        lemma_table_replace(rest, i, name, value);
        assert(changed.drop_last() == rest.update(i, (name, value)));
        assert(table_of(rest).insert(name@, value@).insert(last.0@, last.1@) =~= table_of(
            rest,
        ).insert(last.0@, last.1@).insert(name@, value@));
    }
}

impl HashBuilder {
    /// No name is listed twice, and each value is well formed.
    pub open spec fn well_formed(&self) -> bool {
        distinct_names(self.data@) && forall|i: int|
            0 <= i < self.data@.len() ==> (#[trigger] self.data@[i]).1.well_formed()
    }

    /// A builder without entries.
    pub fn new() -> (r: HashBuilder)
        ensures
            r@ == Map::<Seq<char>, Value>::empty(),
            r.well_formed(),
    {
        HashBuilder { data: Vec::new() }
    }

    /// Puts `value` under `name`, in place of what stood there.
    pub fn insert(self, name: &str, value: Data) -> (r: HashBuilder)
        ensures
            r@ == self@.insert(name@, value@),
            self.well_formed() && value.well_formed() ==> r.well_formed(),
    {
        let key = String::from_str(name);
        let mut data = self.data;
        let ghost before = data@;
        proof {
            lemma_entry_index(before, key@);
        }
        match find_entry(&data, &key) {
            Some(i) => {
                proof {
                    lemma_table_replace(before, i as int, key, value);
                }
                data.set(i, (key, value));
            },
            None => {
                data.push((key, value));
                assert(data@.drop_last() == before);
            },
        }
        HashBuilder { data }
    }

    /// Puts the string `value` under `name`.
    pub fn insert_string(self, name: &str, value: &str) -> (r: HashBuilder)
        ensures
            r@ == self@.insert(name@, Value::Str(value@)),
            self.well_formed() ==> r.well_formed(),
    {
        self.insert(name, Data::Strng(String::from_str(value)))
    }

    /// Puts the boolean `value` under `name`.
    pub fn insert_bool(self, name: &str, value: bool) -> (r: HashBuilder)
        ensures
            r@ == self@.insert(name@, Value::Bool(value)),
            self.well_formed() ==> r.well_formed(),
    {
        self.insert(name, Data::Bool(value))
    }

    /// Puts the list that `items` has built under `name`.
    pub fn insert_vector(self, name: &str, items: VecBuilder) -> (r: HashBuilder)
        ensures
            r@ == self@.insert(name@, Value::List(items@)),
            self.well_formed() && items.well_formed() ==> r.well_formed(),
    {
        self.insert(name, items.build())
    }

    /// Puts the hash that `hash` has built under `name`.
    pub fn insert_hash(self, name: &str, hash: HashBuilder) -> (r: HashBuilder)
        ensures
            r@ == self@.insert(name@, Value::Table(hash@)),
            self.well_formed() && hash.well_formed() ==> r.well_formed(),
    {
        self.insert(name, hash.build())
    }

    /// The hash that was built.
    pub fn build(self) -> (d: Data)
        ensures
            d@ == Value::Table(self@),
            self.well_formed() ==> d.well_formed(),
    {
        Data::Hash(self.data)
    }
}

impl VecBuilder {
    /// Each item is well formed.
    pub open spec fn well_formed(&self) -> bool {
        forall|i: int| 0 <= i < self.data@.len() ==> (#[trigger] self.data@[i]).well_formed()
    }

    /// A builder without items.
    pub fn new() -> (r: VecBuilder)
        ensures
            r@ == Seq::<Value>::empty(),
            r.well_formed(),
    {
        VecBuilder { data: Vec::new() }
    }

    /// Adds `value` behind the items that are there.
    pub fn push(self, value: Data) -> (r: VecBuilder)
        ensures
            r@ == self@.push(value@),
            self.well_formed() && value.well_formed() ==> r.well_formed(),
    {
        let mut data = self.data;
        data.push(value);
        VecBuilder { data }
    }

    /// Adds the string `value`.
    pub fn push_string(self, value: &str) -> (r: VecBuilder)
        ensures
            r@ == self@.push(Value::Str(value@)),
            self.well_formed() ==> r.well_formed(),
    {
        self.push(Data::Strng(String::from_str(value)))
    }

    /// Adds the boolean `value`.
    pub fn push_bool(self, value: bool) -> (r: VecBuilder)
        ensures
            r@ == self@.push(Value::Bool(value)),
            self.well_formed() ==> r.well_formed(),
    {
        self.push(Data::Bool(value))
    }

    /// Adds the list that `items` has built.
    pub fn push_vector(self, items: VecBuilder) -> (r: VecBuilder)
        ensures
            r@ == self@.push(Value::List(items@)),
            self.well_formed() && items.well_formed() ==> r.well_formed(),
    {
        self.push(items.build())
    }

    /// Adds the hash that `hash` has built.
    pub fn push_hash(self, hash: HashBuilder) -> (r: VecBuilder)
        ensures
            r@ == self@.push(Value::Table(hash@)),
            self.well_formed() && hash.well_formed() ==> r.well_formed(),
    {
        self.push(hash.build())
    }

    /// The list that was built.
    pub fn build(self) -> (d: Data)
        ensures
            d@ == Value::List(self@),
            self.well_formed() ==> d.well_formed(),
    {
        proof {
            lemma_vector_view(self.data);
        }
        Data::Vector(self.data)
    }
}

} // verus!
