//! Lists of named entries, in which the last entry under a name stands.

use vstd::prelude::*;

verus! {

/// The index of the last entry of `entries` under `name`.
pub open spec fn entry_index<V>(entries: Seq<(String, V)>, name: Seq<char>) -> Option<int>
    decreases entries.len(),
{
    if entries.len() == 0 {
        None
    } else if entries.last().0@ == name {
        Some(entries.len() - 1)
    } else {
        entry_index(entries.drop_last(), name)
    }
}

/// What `entry_index` gives is an index of `entries` under `name` with no
/// later one; it gives none only where no entry stands under `name`.
pub proof fn lemma_entry_index<V>(entries: Seq<(String, V)>, name: Seq<char>)
    ensures
        entry_index(entries, name) matches Some(i) ==> {
            &&& 0 <= i < entries.len()
            &&& entries[i].0@ == name
            &&& forall|j: int| i < j < entries.len() ==> entries[j].0@ != name
        },
        entry_index(entries, name) is None ==> forall|j: int|
            0 <= j < entries.len() ==> entries[j].0@ != name,
    decreases entries.len(),
{
    if entries.len() > 0 && entries.last().0@ != name {
        let rest = entries.drop_last();
        lemma_entry_index(rest, name);
        assert forall|j: int| 0 <= j < entries.len() && entry_index(rest, name) is None
            implies entries[j].0@ != name by {
            if j < rest.len() {
                assert(rest[j] == entries[j]);
            }
        }
        if entry_index(rest, name) is Some {
            let i: int = entry_index(rest, name).unwrap();
            assert forall|j: int| i < j < entries.len() implies entries[j].0@ != name by {
                if j < rest.len() {
                    assert(rest[j] == entries[j]);
                }
            }
        }
    }
}

/// An index under `name` with no later one is what `entry_index` gives.
pub proof fn lemma_entry_index_is<V>(entries: Seq<(String, V)>, name: Seq<char>, i: int)
    requires
        0 <= i < entries.len(),
        entries[i].0@ == name,
        forall|j: int| i < j < entries.len() ==> entries[j].0@ != name,
    ensures
        entry_index(entries, name) == Some(i),
    decreases entries.len(),
{
    if i < entries.len() - 1 {
        lemma_entry_index_is(entries.drop_last(), name, i);
    }
}

/// The index of the last entry of `entries` under `name`.
pub(crate) fn find_entry<V>(entries: &Vec<(String, V)>, name: &String) -> (r: Option<usize>)
    ensures
        match r {
            Some(i) => entry_index(entries@, name@) == Some(i as int) && i < entries.len(),
            None => entry_index(entries@, name@) is None,
        },
{
    let mut i: usize = entries.len();
    while i > 0
        invariant
            i <= entries.len(),
            forall|j: int| i <= j < entries.len() ==> entries@[j].0@ != name@,
        decreases i,
    {
        i -= 1;
        if entries[i].0 == *name {
            proof {
                lemma_entry_index_is(entries@, name@, i as int);
            }
            return Some(i);
        }
    }
    proof {
        lemma_entry_index(entries@, name@);
    }
    None
}

} // verus!
