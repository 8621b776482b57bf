//! Gathering the partials that a template needs.
//!
//! The templates behind partial tags come from outside: a file, a table, a
//! function. A `Loader` decides which names to ask for. Its user asks for
//! each, hands back what was found, and in the end holds the `Partials` to
//! render with:
//!
//! ```text
//! let mut loader = Loader::new(&nodes);
//! while let Some(name) = loader.next() {
//!     if let Some(found) = look_up(&name) {
//!         loader.supply(name, found);
//!     }
//! }
//! let partials = loader.finish();
//! ```

use crate::parser::{lemma_section_view, nodes_view, Node, NodeView};
use crate::template::Partials;
use vstd::prelude::*;

verus! {

/// The names of the partial tags in `node`, in the order of the text.
pub open spec fn partial_names_of(node: NodeView) -> Seq<Seq<char>>
    decreases node, 0nat,
{
    match node {
        NodeView::Partial(name) => seq![name],
        NodeView::Section(_, _, children) => partial_names(children),
        _ => Seq::empty(),
    }
}

/// The names of the partial tags in `nodes`, at any depth, in the order of
/// the text.
pub open spec fn partial_names(nodes: Seq<NodeView>) -> Seq<Seq<char>>
    decreases nodes, 0nat,
{
    if nodes.len() == 0 {
        Seq::empty()
    } else {
        partial_names(nodes.drop_last()) + partial_names_of(nodes.last())
    }
}

/// The views of `names`, in order.
pub open spec fn names_view(names: Seq<String>) -> Seq<Seq<char>> {
    names.map_values(|s: String| s@)
}

/// Appends the names of the partial tags in `node` to `names`.
fn collect_from_node(node: &Node, names: &mut Vec<String>)
    ensures
        names_view(final(names)@) == names_view(old(names)@) + partial_names_of(node@),
    decreases node, 0nat,
{
    match node {
        Node::Partial(name) => {
            names.push(name.clone());
        },
        Node::Section(name, inverted, children) => {
            proof {
                lemma_section_view(*name, *inverted, *children);
            }
            collect_from_nodes(children, names);
        },
        _ => {},
    }
}

/// Appends the names of the partial tags in `nodes` to `names`.
fn collect_from_nodes(nodes: &Vec<Node>, names: &mut Vec<String>)
    ensures
        names_view(final(names)@) == names_view(old(names)@) + partial_names(nodes_view(nodes@)),
    decreases nodes, 0nat,
{
    let ghost all = nodes_view(nodes@);
    let mut i: usize = 0;
    while i < nodes.len()
        invariant
            i <= nodes.len(),
            all == nodes_view(nodes@),
            names_view(names@) == names_view(old(names)@) + partial_names(all.take(i as int)),
        decreases nodes.len() - i,
    {
        proof {
            assert(all.take(i + 1).drop_last() == all.take(i as int));
        }
        collect_from_node(&nodes[i], names);
        i += 1;
    }
    assert(all.take(i as int) == all);
}

/// The names of the partial tags in `nodes`, at any depth, in the order of
/// the text.
pub fn collect_partial_names(nodes: &Vec<Node>) -> (names: Vec<String>)
    ensures
        names_view(names@) == partial_names(nodes_view(nodes@)),
{
    let mut names: Vec<String> = Vec::new();
    collect_from_nodes(nodes, &mut names);
    names
}

/// Whether `name` is among `names`.
fn holds_name(names: &Vec<String>, name: &String) -> (r: bool)
    ensures
        r == names_view(names@).contains(name@),
{
    let mut i: usize = 0;
    while i < names.len()
        invariant
            i <= names.len(),
            forall|k: int| 0 <= k < i ==> names_view(names@)[k] != name@,
        decreases names.len() - i,
    {
        if names[i] == *name {
            assert(names_view(names@)[i as int] == name@);
            return true;
        }
        i += 1;
    }
    false
}

/// Which partials were asked for, which were found, and which names are
/// still to be looked at.
#[derive(Debug)]
pub struct Loader {
    /// The templates that were supplied.
    pub partials: Partials,
    /// Names of partial tags that were seen and not looked at yet.
    pub pending: Vec<String>,
    /// The names that `next` has handed out or `supply` was given.
    pub asked: Vec<String>,
}

impl Loader {
    /// `name` was handed out by `next`, or supplied.
    pub open spec fn is_asked(&self, name: Seq<char>) -> bool {
        names_view(self.asked@).contains(name)
    }

    /// `name` was handed out or supplied, or waits to be looked at.
    pub open spec fn is_known(&self, name: Seq<char>) -> bool {
        names_view(self.asked@).contains(name) || names_view(self.pending@).contains(name)
    }

    /// Every partial tag in `nodes` has a name that is known.
    pub open spec fn covers(&self, nodes: Seq<NodeView>) -> bool {
        forall|i: int|
            0 <= i < partial_names(nodes).len() ==> self.is_known(#[trigger] partial_names(nodes)[i])
    }

    /// Each template that was supplied was asked for, and the partial tags in
    /// it have names that are known.
    pub open spec fn closed(&self) -> bool {
        forall|name: Seq<char>| #[trigger]
            self.partials@.contains_key(name) ==> self.is_asked(name) && self.covers(
                self.partials@[name],
            )
    }

    /// A loader for the partials that `nodes` need. Nothing was asked for or
    /// supplied yet.
    pub fn new(nodes: &Vec<Node>) -> (r: Loader)
        ensures
            r.partials@ == Map::<Seq<char>, Seq<NodeView>>::empty(),
            r.asked@.len() == 0,
            names_view(r.pending@) == partial_names(nodes_view(nodes@)),
            r.covers(nodes_view(nodes@)),
            r.closed(),
    {
        Loader { partials: Partials::new(), pending: collect_partial_names(nodes), asked: Vec::new() }
    }

    /// The next name to ask for: one that waits to be looked at and was not
    /// asked for before. There is none when no name waits any more.
    pub fn next(&mut self) -> (r: Option<String>)
        ensures
            final(self).partials == old(self).partials,
            forall|name: Seq<char>| final(self).is_known(name) == old(self).is_known(name),
            match r {
                Some(name) => !old(self).is_asked(name@) && forall|other: Seq<char>|
                    final(self).is_asked(other) == (old(self).is_asked(other) || other == name@),
                None => final(self).pending@.len() == 0 && final(self).asked == old(self).asked,
            },
    {
        while self.pending.len() > 0
            invariant
                self.partials == old(self).partials,
                self.asked == old(self).asked,
                forall|name: Seq<char>| self.is_known(name) == old(self).is_known(name),
            decreases self.pending.len(),
        {
            let ghost before = names_view(self.pending@);
            let name = self.pending.pop().unwrap();
            proof {
                assert(before == names_view(self.pending@).push(name@));
                assert forall|other: Seq<char>| before.contains(other) == (names_view(
                    self.pending@,
                ).contains(other) || other == name@) by {
                    lemma_push_contains(names_view(self.pending@), name@, other);
                }
            }
            if !holds_name(&self.asked, &name) {
                let ghost asked = names_view(self.asked@);
                self.asked.push(name.clone());
                proof {
                    assert(names_view(self.asked@) == asked.push(name@));
                    assert forall|other: Seq<char>| names_view(self.asked@).contains(other) == (
                    asked.contains(other) || other == name@) by {
                        lemma_push_contains(asked, name@, other);
                    }
                }
                return Some(name);
            }
        }
        None
    }

    /// Takes the template that was found under `name`, and makes the names
    /// of its partial tags wait to be looked at.
    pub fn supply(&mut self, name: String, nodes: Vec<Node>)
        ensures
            final(self).partials@ == old(self).partials@.insert(name@, nodes_view(nodes@)),
            forall|other: Seq<char>|
                final(self).is_asked(other) == (old(self).is_asked(other) || other == name@),
            forall|other: Seq<char>|
                final(self).is_known(other) == (old(self).is_known(other) || other == name@
                    || partial_names(nodes_view(nodes@)).contains(other)),
            old(self).closed() ==> final(self).closed(),
    {
        let ghost asked = names_view(self.asked@);
        let ghost pending = names_view(self.pending@);
        let ghost found = partial_names(nodes_view(nodes@));
        collect_from_nodes(&nodes, &mut self.pending);
        if !holds_name(&self.asked, &name) {
            self.asked.push(name.clone());
            proof {
                assert(names_view(self.asked@) == asked.push(name@));
            }
        }
        self.partials.insert(name, nodes);
        proof {
            assert forall|other: Seq<char>| names_view(self.asked@).contains(other) == (
            asked.contains(other) || other == name@) by {
                lemma_push_contains(asked, name@, other);
            }
            assert forall|other: Seq<char>| names_view(self.pending@).contains(other) == (
            pending.contains(other) || found.contains(other)) by {
                lemma_add_contains(pending, found, other);
            }
            if old(self).closed() {
                assert forall|key: Seq<char>| #[trigger]
                    self.partials@.contains_key(key) implies self.is_asked(key) && self.covers(
                    self.partials@[key],
                ) by {
                    let names = partial_names(self.partials@[key]);
                    assert forall|i: int| 0 <= i < names.len() implies self.is_known(
                        #[trigger] names[i],
                    ) by {
                        if key == name@ {
                            assert(found.contains(names[i]));
                        }
                    }
                }
            }
        }
    }

    /// The templates that were supplied.
    pub fn finish(self) -> (r: Partials)
        ensures
            r == self.partials,
    {
        self.partials
    }
}

/// What a sequence with one more element holds.
proof fn lemma_push_contains(s: Seq<Seq<char>>, last: Seq<char>, x: Seq<char>)
    ensures
        s.push(last).contains(x) == (s.contains(x) || x == last),
{
    if s.push(last).contains(x) {
        let i: int = choose|i: int| 0 <= i < s.push(last).len() && s.push(last)[i] == x;
        if i < s.len() {
            assert(s[i] == x);
        }
    }
    if s.contains(x) {
        let i: int = choose|i: int| 0 <= i < s.len() && s[i] == x;
        assert(s.push(last)[i] == x);
    }
    if x == last {
        assert(s.push(last)[s.len() as int] == x);
    }
}

/// What two sequences one after the other hold.
proof fn lemma_add_contains(a: Seq<Seq<char>>, b: Seq<Seq<char>>, x: Seq<char>)
    ensures
        (a + b).contains(x) == (a.contains(x) || b.contains(x)),
{
    if (a + b).contains(x) {
        let i: int = choose|i: int| 0 <= i < (a + b).len() && (a + b)[i] == x;
        if i < a.len() {
            assert(a[i] == x);
        } else {
            assert(b[i - a.len()] == x);
        }
    }
    if a.contains(x) {
        let i: int = choose|i: int| 0 <= i < a.len() && a[i] == x;
        assert((a + b)[i] == x);
    }
    if b.contains(x) {
        let i: int = choose|i: int| 0 <= i < b.len() && b[i] == x;
        assert((a + b)[a.len() + i] == x);
    }
}

} // verus!
