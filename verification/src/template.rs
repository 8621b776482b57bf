//! The renderer: a tree of nodes and data to output text.
//!
//! Names are looked up in a stack of contexts, innermost first. The stack
//! starts with the data at the root; a section over a list or a mapping puts
//! one more context on it while its children are rendered.

use crate::compiler::{compile, lex};
use crate::data::{lemma_vector_view, list_of, Data, Value};
use crate::entries::{entry_index, find_entry, lemma_entry_index};
use crate::error::{Error, ErrorView};
use crate::parser::{lemma_section_view, nodes_view, parse, parse_tokens, Node, NodeView};
use crate::text::{escape, push_escaped_str};
use vstd::prelude::*;
use vstd::string::*;

verus! {

/// How many partials may be entered one inside the other. A partial tag
/// nested more deeply renders as nothing.
pub const PARTIAL_DEPTH_LIMIT: usize = 128;

/// The templates that a partial tag can include, by name.
///
/// Where a name occurs more than once, its last entry stands.
#[derive(Debug)]
pub struct Partials {
    pub entries: Vec<(String, Vec<Node>)>,
}

/// The mapping obtained by inserting `entries` one after the other.
pub open spec fn partial_table(entries: Seq<(String, Vec<Node>)>) -> Map<Seq<char>, Seq<NodeView>>
    decreases entries.len(),
{
    if entries.len() == 0 {
        Map::empty()
    } else {
        partial_table(entries.drop_last()).insert(
            entries.last().0@,
            nodes_view(entries.last().1@),
        )
    }
}

impl View for Partials {
    type V = Map<Seq<char>, Seq<NodeView>>;

    open spec fn view(&self) -> Map<Seq<char>, Seq<NodeView>> {
        partial_table(self.entries@)
    }
}

/// `entry_index` finds the entry that decides what `partial_table` holds
/// under `name`.
pub proof fn lemma_partial_entry(entries: Seq<(String, Vec<Node>)>, name: Seq<char>)
    ensures
        partial_table(entries).contains_key(name) <==> entry_index(entries, name) is Some,
        entry_index(entries, name) matches Some(i) ==> {
            &&& 0 <= i < entries.len()
            &&& partial_table(entries)[name] == nodes_view(entries[i].1@)
        },
    decreases entries.len(),
{
    lemma_entry_index(entries, name);
    if entries.len() > 0 {
        let rest = entries.drop_last();
        lemma_partial_entry(rest, name);
    }
}

impl Partials {
    /// No partials at all: every partial tag renders as nothing.
    pub fn new() -> (r: Partials)
        ensures
            r@ == Map::<Seq<char>, Seq<NodeView>>::empty(),
    {
        Partials { entries: Vec::new() }
    }

    /// Puts `nodes` under `name`, in place of what stood there.
    pub fn insert(&mut self, name: String, nodes: Vec<Node>)
        ensures
            final(self)@ == old(self)@.insert(name@, nodes_view(nodes@)),
    {
        let ghost before = self.entries@;
        self.entries.push((name, nodes));
        assert(self.entries@.drop_last() == before);
    }

    /// The nodes under `name`, if there are any.
    pub fn get(&self, name: &str) -> (r: Option<&Vec<Node>>)
        ensures
            match r {
                Some(nodes) => self@.contains_key(name@) && self@[name@] == nodes_view(nodes@),
                None => !self@.contains_key(name@),
            },
    {
        let key = String::from_str(name);
        self.lookup(&key)
    }

    /// The nodes under `name`, if there are any.
    pub(crate) fn lookup(&self, name: &String) -> (r: Option<&Vec<Node>>)
        ensures
            match r {
                Some(nodes) => self@.contains_key(name@) && self@[name@] == nodes_view(nodes@),
                None => !self@.contains_key(name@),
            },
    {
        proof {
            lemma_partial_entry(self.entries@, name@);
        }
        match find_entry(&self.entries, name) {
            Some(i) => Some(&self.entries[i].1),
            None => None,
        }
    }
}

/// The value under `name` in the innermost context of `stack` (its last
/// element is the innermost one) that is a mapping with that name.
pub open spec fn resolve(stack: Seq<Value>, name: Seq<char>) -> Option<Value>
    decreases stack.len(),
{
    if stack.len() == 0 {
        None
    } else {
        match stack.last() {
            Value::Table(m) => if m.contains_key(name) {
                Some(m[name])
            } else {
                resolve(stack.drop_last(), name)
            },
            _ => resolve(stack.drop_last(), name),
        }
    }
}

/// Whether a section over what was found under its name is left out: the
/// name is missing, or holds `false` or an empty list.
pub open spec fn falsy(found: Option<Value>) -> bool {
    match found {
        None => true,
        Some(Value::Bool(b)) => !b,
        Some(Value::List(items)) => items.len() == 0,
        _ => false,
    }
}

/// What a variable tag renders: a string as it is or escaped, a boolean as
/// `true` or `false`, and nothing for a list, a mapping or a missing name.
pub open spec fn render_variable(found: Option<Value>, escaped: bool) -> Seq<char> {
    match found {
        Some(Value::Str(s)) => if escaped {
            escape(s)
        } else {
            s
        },
        Some(Value::Bool(b)) => if b {
            seq!['t', 'r', 'u', 'e']
        } else {
            seq!['f', 'a', 'l', 's', 'e']
        },
        _ => Seq::empty(),
    }
}

/// What one node renders against `stack`, with `depth` more levels of
/// partials allowed.
pub open spec fn render_node(
    node: NodeView,
    stack: Seq<Value>,
    partials: Map<Seq<char>, Seq<NodeView>>,
    depth: nat,
) -> Seq<char>
    decreases depth, node, 0nat,
{
    match node {
        NodeView::Text(text) => text,
        NodeView::Variable(name, escaped) => render_variable(resolve(stack, name), escaped),
        NodeView::Section(name, inverted, children) => {
            let found = resolve(stack, name);
            if inverted {
                if falsy(found) {
                    render_nodes(children, stack, partials, depth)
                } else {
                    Seq::empty()
                }
            } else {
                match found {
                    Some(Value::List(items)) => render_each(
                        children,
                        items,
                        stack,
                        partials,
                        depth,
                    ),
                    Some(Value::Table(m)) => render_nodes(
                        children,
                        stack.push(Value::Table(m)),
                        partials,
                        depth,
                    ),
                    _ => if falsy(found) {
                        Seq::empty()
                    } else {
                        render_nodes(children, stack, partials, depth)
                    },
                }
            }
        },
        NodeView::Partial(name) => if depth > 0 && partials.contains_key(name) {
            render_nodes(partials[name], stack, partials, (depth - 1) as nat)
        } else {
            Seq::empty()
        },
        NodeView::Comment => Seq::empty(),
    }
}

/// What `nodes` render one after the other.
pub open spec fn render_nodes(
    nodes: Seq<NodeView>,
    stack: Seq<Value>,
    partials: Map<Seq<char>, Seq<NodeView>>,
    depth: nat,
) -> Seq<char>
    decreases depth, nodes, 0nat,
{
    if nodes.len() == 0 {
        Seq::empty()
    } else {
        render_nodes(nodes.drop_last(), stack, partials, depth) + render_node(
            nodes.last(),
            stack,
            partials,
            depth,
        )
    }
}

/// What `children` render once for each of `items`, in order, each time with
/// the item as the innermost context.
pub open spec fn render_each(
    children: Seq<NodeView>,
    items: Seq<Value>,
    stack: Seq<Value>,
    partials: Map<Seq<char>, Seq<NodeView>>,
    depth: nat,
) -> Seq<char>
    decreases depth, children, items.len() + 1,
{
    if items.len() == 0 {
        Seq::empty()
    } else {
        render_each(children, items.drop_last(), stack, partials, depth) + render_nodes(
            children,
            stack.push(items.last()),
            partials,
            depth,
        )
    }
}

/// What `nodes` render against the data `root`, which must be a mapping.
pub open spec fn render_root(
    nodes: Seq<NodeView>,
    root: Value,
    partials: Map<Seq<char>, Seq<NodeView>>,
    depth: nat,
) -> Result<Seq<char>, ErrorView> {
    if root is Table {
        Ok(render_nodes(nodes, seq![root], partials, depth))
    } else {
        Err(ErrorView::InvalidRootContext)
    }
}

/// What the template `text` renders against the data `root`: the first
/// error of lexing, parsing and rendering, in that order, or the output.
pub open spec fn render_template(
    text: Seq<char>,
    root: Value,
    partials: Map<Seq<char>, Seq<NodeView>>,
    depth: nat,
) -> Result<Seq<char>, ErrorView> {
    match lex(text) {
        Err(e) => Err(e),
        Ok(tokens) => match parse_tokens(tokens) {
            Err(e) => Err(e),
            Ok(nodes) => render_root(nodes, root, partials, depth),
        },
    }
}

/// The values that the contexts of `stack` stand for.
pub open spec fn stack_view(stack: Seq<&Data>) -> Seq<Value> {
    stack.map_values(|d: &Data| d@)
}

/// Looks `name` up in the contexts of `stack`, innermost first.
fn resolve_in<'a>(stack: &Vec<&'a Data>, name: &String) -> (r: Option<&'a Data>)
    ensures
        match r {
            Some(d) => resolve(stack_view(stack@), name@) == Some(d@),
            None => resolve(stack_view(stack@), name@) is None,
        },
{
    let ghost values = stack_view(stack@);
    let mut i: usize = stack.len();
    assert(values.take(i as int) == values);
    while i > 0
        invariant
            i <= stack.len(),
            values == stack_view(stack@),
            resolve(values, name@) == resolve(values.take(i as int), name@),
        decreases i,
    {
        proof {
            assert(values.take(i as int).drop_last() == values.take(i - 1));
        }
        i -= 1;
        let context: &'a Data = stack[i];
        match context.lookup(name) {
            Some(d) => {
                return Some(d);
            },
            None => {},
        }
    }
    None
}

/// Appends to `out` what a variable tag renders for what was found.
fn render_variable_into(out: &mut String, found: Option<&Data>, escaped: bool)
    ensures
        final(out)@ == old(out)@ + render_variable(
            match found {
                Some(d) => Some(d@),
                None => None,
            },
            escaped,
        ),
{
    match found {
        Some(Data::Strng(s)) => {
            if escaped {
                push_escaped_str(out, s.as_str());
            } else {
                out.append(s.as_str());
            }
        },
        Some(Data::Bool(b)) => {
            if *b {
                proof {
                    reveal_strlit("true");
                }
                out.append("true");
            } else {
                proof {
                    reveal_strlit("false");
                }
                out.append("false");
            }
        },
        _ => {},
    }
}

/// Whether a section over what was found is left out.
fn is_falsy(found: Option<&Data>) -> (r: bool)
    ensures
        r == falsy(
            match found {
                Some(d) => Some(d@),
                None => None,
            },
        ),
{
    match found {
        None => true,
        Some(Data::Bool(b)) => !*b,
        Some(Data::Vector(items)) => {
            proof {
                lemma_vector_view(*items);
            }
            items.len() == 0
        },
        _ => false,
    }
}

/// Appends to `out` what `node` renders against `stack`.
fn render_node_into<'a>(
    out: &mut String,
    node: &Node,
    stack: &mut Vec<&'a Data>,
    partials: &Partials,
    depth: usize,
)
    ensures
        final(out)@ == old(out)@ + render_node(
            node@,
            stack_view(old(stack)@),
            partials@,
            depth as nat,
        ),
        final(stack)@ == old(stack)@,
    decreases depth, node, 0nat,
{
    let ghost values = stack_view(stack@);
    match node {
        Node::Text(text) => {
            out.append(text.as_str());
        },
        Node::Variable(name, escaped) => {
            let found = resolve_in(stack, name);
            render_variable_into(out, found, *escaped);
        },
        Node::Section(name, inverted, children) => {
            proof {
                lemma_section_view(*name, *inverted, *children);
            }
            let found = resolve_in(stack, name);
            if *inverted {
                if is_falsy(found) {
                    render_nodes_into(out, children, stack, partials, depth);
                }
            } else {
                match found {
                    Some(Data::Vector(items)) => {
                        proof {
                            lemma_vector_view(*items);
                        }
                        render_each_into(out, children, items, stack, partials, depth);
                    },
                    Some(d) => {
                        match d {
                            Data::Hash(_) => {
                                stack.push(d);
                                assert(stack_view(stack@) == values.push(d@));
                                render_nodes_into(out, children, stack, partials, depth);
                                stack.pop();
                            },
                            _ => {
                                if !is_falsy(found) {
                                    render_nodes_into(out, children, stack, partials, depth);
                                }
                            },
                        }
                    },
                    None => {},
                }
            }
        },
        Node::Partial(name) => {
            if depth > 0 {
                match partials.lookup(name) {
                    Some(nodes) => {
                        render_nodes_into(out, nodes, stack, partials, depth - 1);
                    },
                    None => {},
                }
            }
        },
        Node::Comment => {},
    }
}

/// Appends to `out` what `nodes` render against `stack`, one after the other.
fn render_nodes_into<'a>(
    out: &mut String,
    nodes: &Vec<Node>,
    stack: &mut Vec<&'a Data>,
    partials: &Partials,
    depth: usize,
)
    ensures
        final(out)@ == old(out)@ + render_nodes(
            nodes_view(nodes@),
            stack_view(old(stack)@),
            partials@,
            depth as nat,
        ),
        final(stack)@ == old(stack)@,
    decreases depth, nodes, 0nat,
{
    let ghost all = nodes_view(nodes@);
    let ghost values = stack_view(stack@);
    let mut i: usize = 0;
    while i < nodes.len()
        invariant
            i <= nodes.len(),
            all == nodes_view(nodes@),
            stack@ == old(stack)@,
            values == stack_view(stack@),
            out@ == old(out)@ + render_nodes(all.take(i as int), values, partials@, depth as nat),
        decreases nodes.len() - i,
    {
        proof {
            assert(all.take(i + 1).drop_last() == all.take(i as int));
        }
        render_node_into(out, &nodes[i], stack, partials, depth);
        i += 1;
    }
    assert(all.take(i as int) == all);
}

/// Appends to `out` what `children` render for each of `items` in turn, each
/// time with the item as the innermost context.
fn render_each_into<'a>(
    out: &mut String,
    children: &Vec<Node>,
    items: &'a Vec<Data>,
    stack: &mut Vec<&'a Data>,
    partials: &Partials,
    depth: usize,
)
    ensures
        final(out)@ == old(out)@ + render_each(
            nodes_view(children@),
            list_of(items@),
            stack_view(old(stack)@),
            partials@,
            depth as nat,
        ),
        final(stack)@ == old(stack)@,
    decreases depth, children, 1nat,
{
    let ghost all = list_of(items@);
    let ghost values = stack_view(stack@);
    let ghost kids = nodes_view(children@);
    let mut i: usize = 0;
    while i < items.len()
        invariant
            i <= items.len(),
            all == list_of(items@),
            kids == nodes_view(children@),
            stack@ == old(stack)@,
            values == stack_view(stack@),
            out@ == old(out)@ + render_each(
                kids,
                all.take(i as int),
                values,
                partials@,
                depth as nat,
            ),
        decreases items.len() - i,
    {
        proof {
            assert(all.take(i + 1).drop_last() == all.take(i as int));
        }
        stack.push(&items[i]);
        assert(stack_view(stack@) == values.push(items@[i as int]@));
        render_nodes_into(out, children, stack, partials, depth);
        stack.pop();
        i += 1;
    }
    assert(all.take(i as int) == all);
}

/// Renders a parsed template against `data`, which must be a `Data::Hash`:
/// any other data fails with `InvalidRootContext`. Names that the data does
/// not hold and partials that `partials` does not hold render as nothing, and
/// so does a partial tag that is nested more than `depth` partials deep.
pub fn render_within(nodes: &Vec<Node>, data: &Data, partials: &Partials, depth: usize) -> (r:
    Result<String, Error>)
    ensures
        match r {
            Ok(out) => render_root(nodes_view(nodes@), data@, partials@, depth as nat) == Ok::<
                Seq<char>,
                ErrorView,
            >(out@),
            Err(e) => render_root(nodes_view(nodes@), data@, partials@, depth as nat) == Err::<
                Seq<char>,
                ErrorView,
            >(e@),
        },
{
    match data {
        Data::Hash(_) => {
            let mut out = String::new();
            let mut stack: Vec<&Data> = Vec::new();
            stack.push(data);
            assert(stack_view(stack@) == seq![data@]);
            render_nodes_into(&mut out, nodes, &mut stack, partials, depth);
            Ok(out)
        },
        _ => Err(Error::InvalidRootContext),
    }
}

/// Renders a parsed template against `data`, which must be a `Data::Hash`:
/// any other data fails with `InvalidRootContext`. Names that the data does
/// not hold and partials that `partials` does not hold render as nothing.
/// Partials may be nested `PARTIAL_DEPTH_LIMIT` deep.
pub fn render(nodes: &Vec<Node>, data: &Data, partials: &Partials) -> (r: Result<String, Error>)
    ensures
        match r {
            Ok(out) => render_root(
                nodes_view(nodes@),
                data@,
                partials@,
                PARTIAL_DEPTH_LIMIT as nat,
            ) == Ok::<Seq<char>, ErrorView>(out@),
            Err(e) => render_root(nodes_view(nodes@), data@, partials@, PARTIAL_DEPTH_LIMIT as nat)
                == Err::<Seq<char>, ErrorView>(e@),
        },
{
    render_within(nodes, data, partials, PARTIAL_DEPTH_LIMIT)
}

/// Compiles, parses and renders the template `input` against `data`. The
/// first step that fails gives the error, and no output is made.
pub fn render_text(input: &str, data: &Data, partials: &Partials) -> (r: Result<String, Error>)
    ensures
        match r {
            Ok(out) => render_template(input@, data@, partials@, PARTIAL_DEPTH_LIMIT as nat)
                == Ok::<Seq<char>, ErrorView>(out@),
            Err(e) => render_template(input@, data@, partials@, PARTIAL_DEPTH_LIMIT as nat)
                == Err::<Seq<char>, ErrorView>(e@),
        },
{
    let tokens = match compile(input) {
        Ok(tokens) => tokens,
        Err(e) => {
            return Err(e);
        },
    };
    let nodes = match parse(&tokens) {
        Ok(nodes) => nodes,
        Err(e) => {
            return Err(e);
        },
    };
    render(&nodes, data, partials)
}

} // verus!
