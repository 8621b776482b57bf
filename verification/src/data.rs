//! The data handed to a template, and the mathematical value it stands for.

use crate::entries::{entry_index, find_entry, lemma_entry_index};
use vstd::prelude::*;
use vstd::std_specs::cmp::PartialEqSpecImpl;
use vstd::string::*;

verus! {

/// The types that passed-in data may take on.
///
/// A `Hash` lists its entries in the order in which they were added. Where a
/// name occurs more than once, its last entry stands, as if the entries had
/// been inserted into a map one after the other.
#[derive(Debug)]
pub enum Data {
    /// A text.
    Strng(String),
    /// A flag.
    Bool(bool),
    /// A list of values, in their order.
    Vector(Vec<Data>),
    /// Values under names.
    Hash(Vec<(String, Data)>),
}

/// What a `Data` stands for: a string, a boolean, an ordered list of values,
/// or a mapping from names to values.
pub enum Value {
    /// A string.
    Str(Seq<char>),
    /// A boolean.
    Bool(bool),
    /// An ordered list of values.
    List(Seq<Value>),
    /// A mapping from names to values.
    Table(Map<Seq<char>, Value>),
}

/// The mapping obtained by inserting `entries` one after the other.
pub open spec fn table_of(entries: Seq<(String, Data)>) -> Map<Seq<char>, Value>
    decreases entries,
{
    if entries.len() == 0 {
        Map::empty()
    } else {
        table_of(entries.drop_last()).insert(entries.last().0@, entries.last().1@)
    }
}

/// The values that `items` stand for, in order.
pub open spec fn list_of(items: Seq<Data>) -> Seq<Value> {
    items.map_values(|d: Data| d@)
}

/// No two of `entries` stand under the same name.
pub open spec fn distinct_names(entries: Seq<(String, Data)>) -> bool {
    forall|i: int, j: int| 0 <= i < j < entries.len() ==> entries[i].0@ != entries[j].0@
}

impl View for Data {
    type V = Value;

    open spec fn view(&self) -> Value
        decreases self,
    {
        match self {
            Data::Strng(s) => Value::Str(s@),
            Data::Bool(b) => Value::Bool(*b),
            Data::Vector(items) => Value::List(
                Seq::new(
                    items@.len(),
                    |i: int|
                        if 0 <= i < items@.len() {
                            items@[i]@
                        } else {
                            Value::Bool(false)
                        },
                ),
            ),
            Data::Hash(entries) => Value::Table(table_of(entries@)),
        }
    }
}

/// A `Vector` stands for the list of what its items stand for.
pub proof fn lemma_vector_view(items: Vec<Data>)
    ensures
        Data::Vector(items)@ == Value::List(list_of(items@)),
{
    assert(Data::Vector(items)@->List_0 =~= list_of(items@));
}

/// `entry_index` finds the entry that decides what `table_of` holds under
/// `name`.
pub proof fn lemma_table_entry(entries: Seq<(String, Data)>, name: Seq<char>)
    ensures
        table_of(entries).contains_key(name) <==> entry_index(entries, name) is Some,
        entry_index(entries, name) matches Some(i) ==> {
            &&& 0 <= i < entries.len()
            &&& entries[i].0@ == name
            &&& table_of(entries)[name] == entries[i].1@
        },
        entry_index(entries, name) is None ==> forall|j: int|
            0 <= j < entries.len() ==> entries[j].0@ != name,
    decreases entries.len(),
{
    lemma_entry_index(entries, name);
    if entries.len() > 0 {
        let rest = entries.drop_last();
        lemma_table_entry(rest, name);
        assert(table_of(entries) == table_of(rest).insert(entries.last().0@, entries.last().1@));
    }
}

/// How a value is written out for a reader: its kind, and in brackets what
/// it holds.
pub open spec fn show(d: Data) -> Seq<char>
    decreases d, 0nat,
{
    match d {
        Data::Strng(s) => "String("@ + s@ + ")"@,
        Data::Bool(b) => if b {
            "Boolean(true)"@
        } else {
            "Boolean(false)"@
        },
        Data::Vector(items) => "Vector(["@ + show_items(items@, items@.len()) + "])"@,
        Data::Hash(entries) => "Hash({"@ + show_entries(entries@, entries@.len()) + "})"@,
    }
}

/// The first `k` of `items` written out, with `, ` between them.
pub open spec fn show_items(items: Seq<Data>, k: nat) -> Seq<char>
    decreases items, k,
{
    if k == 0 || k > items.len() {
        Seq::empty()
    } else if k == 1 {
        show(items[0])
    } else {
        show_items(items, (k - 1) as nat) + ", "@ + show(items[k - 1])
    }
}

/// The first `k` of `entries` written out as `name: value`, with `, `
/// between them.
pub open spec fn show_entries(entries: Seq<(String, Data)>, k: nat) -> Seq<char>
    decreases entries, k,
{
    if k == 0 || k > entries.len() {
        Seq::empty()
    } else if k == 1 {
        entries[0].0@ + ": "@ + show(entries[0].1)
    } else {
        show_entries(entries, (k - 1) as nat) + ", "@ + entries[k - 1].0@ + ": "@ + show(
            entries[k - 1].1,
        )
    }
}

impl Data {
    /// No hash in `self`, at any depth, lists a name twice.
    pub open spec fn well_formed(&self) -> bool
        decreases self,
    {
        match self {
            Data::Strng(_) => true,
            Data::Bool(_) => true,
            Data::Vector(items) => forall|i: int|
                0 <= i < items@.len() ==> (#[trigger] items@[i]).well_formed(),
            Data::Hash(entries) => distinct_names(entries@) && forall|i: int|
                0 <= i < entries@.len() ==> (#[trigger] entries@[i]).1.well_formed(),
        }
    }

    /// Whether no hash in `self`, at any depth, lists a name twice.
    pub fn is_well_formed(&self) -> (r: bool)
        ensures
            r == self.well_formed(),
        decreases self,
    {
        match self {
            Data::Strng(_) => true,
            Data::Bool(_) => true,
            Data::Vector(items) => items_well_formed(items),
            Data::Hash(entries) => entries_well_formed(entries),
        }
    }

    /// The value under `name`, where `self` is a `Hash` that has one.
    pub fn get(&self, name: &str) -> (r: Option<&Data>)
        ensures
            match r {
                Some(d) => self@ matches Value::Table(m) && m.contains_key(name@) && m[name@]
                    == d@,
                None => !(self@ matches Value::Table(m) && m.contains_key(name@)),
            },
    {
        let key = String::from_str(name);
        self.lookup(&key)
    }

    /// The value under `name`, where `self` is a `Hash` that has one.
    pub(crate) fn lookup(&self, name: &String) -> (r: Option<&Data>)
        ensures
            match r {
                Some(d) => self@ matches Value::Table(m) && m.contains_key(name@) && m[name@]
                    == d@,
                None => !(self@ matches Value::Table(m) && m.contains_key(name@)),
            },
    {
        match self {
            Data::Hash(entries) => {
                proof {
                    lemma_table_entry(entries@, name@);
                }
                match find_entry(entries, name) {
                    Some(i) => Some(&entries[i].1),
                    None => None,
                }
            },
            _ => None,
        }
    }

    /// `self` written out for a reader, as in `Hash({name: String(text)})`.
    pub fn to_text(&self) -> (out: String)
        ensures
            out@ == show(*self),
    {
        let mut out = String::new();
        self.show_into(&mut out);
        out
    }

    /// Appends `self`, written out for a reader, to `out`.
    fn show_into(&self, out: &mut String)
        ensures
            final(out)@ == old(out)@ + show(*self),
        decreases self, 0nat,
    {
        match self {
            Data::Strng(s) => {
                out.append("String(");
                out.append(s.as_str());
                out.append(")");
            },
            Data::Bool(b) => {
                if *b {
                    out.append("Boolean(true)");
                } else {
                    out.append("Boolean(false)");
                }
            },
            Data::Vector(items) => {
                out.append("Vector([");
                show_items_into(items, out);
                out.append("])");
            },
            Data::Hash(entries) => {
                out.append("Hash({");
                show_entries_into(entries, out);
                out.append("})");
            },
        }
    }

    /// Whether `self` and `other` stand for the same value.
    pub fn same(&self, other: &Data) -> (r: bool)
        ensures
            r == (self@ == other@),
        decreases self,
    {
        match (self, other) {
            (Data::Strng(a), Data::Strng(b)) => *a == *b,
            (Data::Bool(a), Data::Bool(b)) => *a == *b,
            (Data::Vector(a), Data::Vector(b)) => {
                proof {
                    lemma_vector_view(*a);
                    lemma_vector_view(*b);
                }
                same_items(a, b)
            },
            (Data::Hash(a), Data::Hash(b)) => same_entries(a, b),
            _ => false,
        }
    }
}

/// Whether each of `items` is well formed.
fn items_well_formed(items: &Vec<Data>) -> (r: bool)
    ensures
        r == forall|i: int| 0 <= i < items@.len() ==> (#[trigger] items@[i]).well_formed(),
    decreases items,
{
    let mut i: usize = 0;
    while i < items.len()
        invariant
            i <= items.len(),
            forall|k: int| 0 <= k < i ==> (#[trigger] items@[k]).well_formed(),
        decreases items.len() - i,
    {
        if !items[i].is_well_formed() {
            return false;
        }
        i += 1;
    }
    true
}

/// Whether `entries` have distinct names and well-formed values.
fn entries_well_formed(entries: &Vec<(String, Data)>) -> (r: bool)
    ensures
        r == (distinct_names(entries@) && forall|i: int|
            0 <= i < entries@.len() ==> (#[trigger] entries@[i]).1.well_formed()),
    decreases entries,
{
    let mut i: usize = 0;
    while i < entries.len()
        invariant
            i <= entries.len(),
            forall|k: int| 0 <= k < i ==> (#[trigger] entries@[k]).1.well_formed(),
            forall|k: int, j: int| 0 <= k < i && k < j < entries.len() ==> entries@[k].0@ != entries@[j].0@,
        decreases entries.len() - i,
    {
        proof {
            lemma_entry_index(entries@, entries@[i as int].0@);
        }
        match find_entry(entries, &entries[i].0) {
            Some(last) => {
                if last != i {
                    return false;
                }
            },
            None => {
                return false;
            },
        }
        if !entries[i].1.is_well_formed() {
            return false;
        }
        i += 1;
    }
    true
}

/// Appends `items`, written out with `, ` between them, to `out`.
fn show_items_into(items: &Vec<Data>, out: &mut String)
    ensures
        final(out)@ == old(out)@ + show_items(items@, items@.len()),
    decreases items, 0nat,
{
    let mut i: usize = 0;
    while i < items.len()
        invariant
            i <= items.len(),
            out@ == old(out)@ + show_items(items@, i as nat),
        decreases items.len() - i,
    {
        if i > 0 {
            out.append(", ");
        }
        items[i].show_into(out);
        i += 1;
    }
}

/// Appends `entries`, written out as `name: value` with `, ` between them, to
/// `out`.
fn show_entries_into(entries: &Vec<(String, Data)>, out: &mut String)
    ensures
        final(out)@ == old(out)@ + show_entries(entries@, entries@.len()),
    decreases entries, 0nat,
{
    let mut i: usize = 0;
    while i < entries.len()
        invariant
            i <= entries.len(),
            out@ == old(out)@ + show_entries(entries@, i as nat),
        decreases entries.len() - i,
    {
        if i > 0 {
            out.append(", ");
        }
        out.append(entries[i].0.as_str());
        out.append(": ");
        entries[i].1.show_into(out);
        i += 1;
    }
}

/// Whether `a` and `b` stand for the same list of values.
fn same_items(a: &Vec<Data>, b: &Vec<Data>) -> (r: bool)
    ensures
        r == (list_of(a@) == list_of(b@)),
    decreases a,
{
    if a.len() != b.len() {
        return false;
    }
    let mut i: usize = 0;
    while i < a.len()
        invariant
            i <= a.len(),
            a.len() == b.len(),
            forall|j: int| 0 <= j < i ==> a@[j]@ == b@[j]@,
        decreases a.len() - i,
    {
        if !a[i].same(&b[i]) {
            assert(list_of(a@)[i as int] != list_of(b@)[i as int]);
            return false;
        }
        i += 1;
    }
    assert(list_of(a@) =~= list_of(b@));
    true
}

/// Whether `a` and `b` stand for the same mapping.
fn same_entries(a: &Vec<(String, Data)>, b: &Vec<(String, Data)>) -> (r: bool)
    ensures
        r == (table_of(a@) == table_of(b@)),
    decreases a,
{
    let mut i: usize = 0;
    while i < a.len()
        invariant
            i <= a.len(),
            forall|j: int|
                0 <= j < i ==> table_of(b@).contains_key(#[trigger] a@[j].0@) && table_of(a@)[a@[j].0@]
                    == table_of(b@)[a@[j].0@],
        decreases a.len() - i,
    {
        proof {
            lemma_table_entry(a@, a@[i as int].0@);
            lemma_table_entry(b@, a@[i as int].0@);
        }
        let ia = find_entry(a, &a[i].0);
        let ib = find_entry(b, &a[i].0);
        match (ia, ib) {
            (Some(ka), Some(kb)) => {
                if !a[ka].1.same(&b[kb].1) {
                    return false;
                }
            },
            _ => {
                return false;
            },
        }
        i += 1;
    }
    let mut j: usize = 0;
    while j < b.len()
        invariant
            j <= b.len(),
            forall|k: int| 0 <= k < j ==> table_of(a@).contains_key(#[trigger] b@[k].0@),
        decreases b.len() - j,
    {
        proof {
            lemma_table_entry(a@, b@[j as int].0@);
            lemma_table_entry(b@, b@[j as int].0@);
        }
        if find_entry(a, &b[j].0).is_none() {
            return false;
        }
        j += 1;
    }
    proof {
        let ta = table_of(a@);
        let tb = table_of(b@);
        assert forall|k: Seq<char>| #[trigger] ta.dom().contains(k) implies tb.dom().contains(k)
            && ta[k] == tb[k] by {
            lemma_table_entry(a@, k);
        }
        assert forall|k: Seq<char>| #[trigger] tb.dom().contains(k) implies ta.dom().contains(
            k,
        ) by {
            lemma_table_entry(b@, k);
        }
        assert(ta =~= tb);
    }
    true
}

impl PartialEq for Data {
    /// Two values are equal where they are of the same variant and stand for
    /// the same contents; the order of a `Hash`'s entries does not count.
    fn eq(&self, other: &Data) -> (r: bool) {
        self.same(other)
    }
}

impl PartialEqSpecImpl for Data {
    open spec fn obeys_eq_spec() -> bool {
        true
    }

    open spec fn eq_spec(&self, other: &Data) -> bool {
        self@ == other@
    }
}

} // verus!
