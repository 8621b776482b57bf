//! What holds of every template and every data value.

use crate::compiler::{
    default_close, default_open, directive_close, directive_open, lemma_scan_tag, lex, lex_from,
    scan_tag, TagKind, TokenView,
};
use crate::data::Value;
use crate::error::ErrorView;
use crate::loader::{partial_names, partial_names_of, Loader};
use crate::parser::{parse_all, parse_tokens, Frame, NodeView, ParseState};
use crate::template::{
    falsy, render_each, render_node, render_nodes, render_root, render_template, resolve,
};
use crate::text::{
    escape, escape_char, find, is_space, lemma_find_none, lemma_find_some, matches_at, trim,
    trim_end, trim_start,
};
use vstd::prelude::*;

verus! {

/// What `find` gives is the first occurrence at or after `from`: the pattern
/// occurs there and nowhere between, and `find` gives nothing only where the
/// pattern does not occur from `from` on.
pub proof fn law_find_first_occurrence(s: Seq<char>, pat: Seq<char>, from: int)
    requires
        0 <= from,
        pat.len() > 0,
    ensures
        match find(s, pat, from) {
            Some(j) => from <= j && matches_at(s, pat, j) && forall|k: int|
                from <= k < j ==> !matches_at(s, pat, k),
            None => forall|k: int| from <= k ==> !matches_at(s, pat, k),
        },
{
    if find(s, pat, from) is Some {
        lemma_find_some(s, pat, from);
    } else {
        lemma_find_none(s, pat, from);
    }
}

/// Trimmed text neither starts nor ends with whitespace.
pub proof fn law_trim_has_no_outer_space(s: Seq<char>)
    ensures
        trim(s).len() > 0 ==> !is_space(trim(s)[0]) && !is_space(trim(s).last()),
{
    lemma_trim_start(s);
    lemma_trim_end(trim_start(s));
}

proof fn lemma_trim_start(s: Seq<char>)
    ensures
        trim_start(s).len() > 0 ==> !is_space(trim_start(s)[0]),
    decreases s.len(),
{
    if s.len() > 0 && is_space(s[0]) {
        lemma_trim_start(s.drop_first());
    }
}

proof fn lemma_trim_end(s: Seq<char>)
    ensures
        trim_end(s).len() > 0 ==> !is_space(trim_end(s).last()) && trim_end(s)[0] == s[0],
    decreases s.len(),
{
    if s.len() > 0 && is_space(s.last()) {
        lemma_trim_end(s.drop_last());
    }
}

/// A template in which no tag opens renders as itself, whatever the mapping at
/// the root and whatever the partials.
pub proof fn law_literal_text(
    text: Seq<char>,
    root: Value,
    partials: Map<Seq<char>, Seq<NodeView>>,
    depth: nat,
)
    requires
        root is Table,
        forall|i: int| !matches_at(text, default_open(), i),
    ensures
        render_template(text, root, partials, depth) == Ok::<Seq<char>, ErrorView>(text),
{
    if find(text, default_open(), 0) is Some {
        lemma_find_some(text, default_open(), 0);
    }
    let tokens = if text.len() == 0 {
        Seq::<TokenView>::empty()
    } else {
        seq![TokenView::Text(text)]
    };
    let start = ParseState { stack: Seq::empty(), current: Seq::empty() };
    if text.len() == 0 {
        let out = render_nodes(Seq::<NodeView>::empty(), seq![root], partials, depth);
        assert(out == text);
    } else {
        let whole = text.subrange(0, text.len() as int);
        assert(whole == text);
        assert(parse_all(tokens.drop_last()) == Ok::<ParseState, ErrorView>(start));
        let nodes = seq![NodeView::Text(text)];
        assert(render_nodes(nodes.drop_last(), seq![root], partials, depth) == Seq::<char>::empty());
        assert(render_node(nodes.last(), seq![root], partials, depth) == text);
    }
}

/// Of a section and the inverted section over the same name and the same
/// children, one renders the children and the other renders nothing: the
/// inverted one renders them where the name is missing or holds `false` or an
/// empty list, the plain one once where it holds `true` and once for each
/// item where it holds a list with items.
pub proof fn law_inverted_complement(
    name: Seq<char>,
    children: Seq<NodeView>,
    stack: Seq<Value>,
    partials: Map<Seq<char>, Seq<NodeView>>,
    depth: nat,
)
    ensures
        ({
            let found = resolve(stack, name);
            let plain = render_node(
                NodeView::Section(name, false, children),
                stack,
                partials,
                depth,
            );
            let inverted = render_node(
                NodeView::Section(name, true, children),
                stack,
                partials,
                depth,
            );
            let once = render_nodes(children, stack, partials, depth);
            &&& falsy(found) ==> plain == Seq::<char>::empty() && inverted == once
            &&& !falsy(found) ==> inverted == Seq::<char>::empty()
            &&& found == Some(Value::Bool(true)) ==> plain == once
            &&& found matches Some(Value::List(items)) ==> plain == render_each(
                children,
                items,
                stack,
                partials,
                depth,
            )
            &&& (found is None || found matches Some(Value::Bool(_))) ==> (plain == once
                && inverted == Seq::<char>::empty()) || (plain == Seq::<char>::empty() && inverted
                == once)
        }),
{
}

/// Nodes render in their order: what two runs of nodes render together is
/// what the first renders followed by what the second renders.
pub proof fn law_render_in_order(
    first: Seq<NodeView>,
    second: Seq<NodeView>,
    stack: Seq<Value>,
    partials: Map<Seq<char>, Seq<NodeView>>,
    depth: nat,
)
    ensures
        render_nodes(first + second, stack, partials, depth) == render_nodes(
            first,
            stack,
            partials,
            depth,
        ) + render_nodes(second, stack, partials, depth),
    decreases second.len(),
{
    if second.len() > 0 {
        assert((first + second).drop_last() == first + second.drop_last());
        law_render_in_order(first, second.drop_last(), stack, partials, depth);
    }
}

/// A section over a list renders its children once for each item, in the
/// order of the list: what it renders for two lists one after the other is
/// what it renders for the first followed by what it renders for the second.
pub proof fn law_iteration_in_order(
    children: Seq<NodeView>,
    first: Seq<Value>,
    second: Seq<Value>,
    stack: Seq<Value>,
    partials: Map<Seq<char>, Seq<NodeView>>,
    depth: nat,
)
    ensures
        render_each(children, first + second, stack, partials, depth) == render_each(
            children,
            first,
            stack,
            partials,
            depth,
        ) + render_each(children, second, stack, partials, depth),
    decreases second.len(),
{
    if second.len() > 0 {
        assert((first + second).drop_last() == first + second.drop_last());
        law_iteration_in_order(children, first, second.drop_last(), stack, partials, depth);
    }
}

/// A name that no context holds is no error: its variable renders as
/// nothing, escaped or not, and so does its section.
pub proof fn law_missing_name_renders_nothing(
    name: Seq<char>,
    children: Seq<NodeView>,
    stack: Seq<Value>,
    partials: Map<Seq<char>, Seq<NodeView>>,
    depth: nat,
)
    requires
        resolve(stack, name) is None,
    ensures
        render_node(NodeView::Variable(name, true), stack, partials, depth) == Seq::<char>::empty(),
        render_node(NodeView::Variable(name, false), stack, partials, depth) == Seq::<
            char,
        >::empty(),
        render_node(NodeView::Section(name, false, children), stack, partials, depth) == Seq::<
            char,
        >::empty(),
{
}

/// A partial that `partials` does not hold is no error: it renders as
/// nothing.
pub proof fn law_missing_partial_renders_nothing(
    name: Seq<char>,
    stack: Seq<Value>,
    partials: Map<Seq<char>, Seq<NodeView>>,
    depth: nat,
)
    requires
        !partials.contains_key(name),
    ensures
        render_node(NodeView::Partial(name), stack, partials, depth) == Seq::<char>::empty(),
{
}

/// Rendering fails only where the data at the root is no mapping.
pub proof fn law_render_fails_only_on_root(
    nodes: Seq<NodeView>,
    root: Value,
    partials: Map<Seq<char>, Seq<NodeView>>,
    depth: nat,
)
    ensures
        root is Table ==> render_root(nodes, root, partials, depth) is Ok,
        !(root is Table) ==> render_root(nodes, root, partials, depth) == Err::<
            Seq<char>,
            ErrorView,
        >(ErrorView::InvalidRootContext),
{
}

/// A partial renders against the stack of the place that includes it.
pub proof fn law_partial_inherits_stack(
    name: Seq<char>,
    stack: Seq<Value>,
    partials: Map<Seq<char>, Seq<NodeView>>,
    depth: nat,
)
    requires
        depth > 0,
        partials.contains_key(name),
    ensures
        render_node(NodeView::Partial(name), stack, partials, depth) == render_nodes(
            partials[name],
            stack,
            partials,
            (depth - 1) as nat,
        ),
{
}

/// Escaped text holds none of `<`, `>`, `"` and `'`.
pub proof fn law_escaped_is_inert(s: Seq<char>)
    ensures
        forall|i: int|
            0 <= i < escape(s).len() ==> {
                let c = #[trigger] escape(s)[i];
                c != '<' && c != '>' && c != '"' && c != '\''
            },
    decreases s.len(),
{
    if s.len() > 0 {
        law_escaped_is_inert(s.drop_last());
        let head = escape(s.drop_last());
        let tail = escape_char(s.last());
        assert forall|i: int| 0 <= i < escape(s).len() implies {
            let c = #[trigger] escape(s)[i];
            c != '<' && c != '>' && c != '"' && c != '\''
        } by {
            if i < head.len() {
                assert(escape(s)[i] == head[i]);
            } else {
                assert(escape(s)[i] == tail[i - head.len()]);
            }
        }
    }
}

/// `x` written `n` times.
pub open spec fn repeated(x: Seq<char>, n: nat) -> Seq<char>
    decreases n,
{
    if n == 0 {
        Seq::empty()
    } else {
        repeated(x, (n - 1) as nat) + x
    }
}

/// Of `{{#name}}x{{/name}}` and `{{^name}}x{{/name}}` exactly one renders `x`
/// and the other nothing where the name is missing or holds a boolean. Where
/// it holds a list, the inverted one renders `x` for the empty list, and the
/// plain one renders `x` once for each item otherwise.
pub proof fn law_inverted_complement_of_text(
    name: Seq<char>,
    x: Seq<char>,
    stack: Seq<Value>,
    partials: Map<Seq<char>, Seq<NodeView>>,
    depth: nat,
)
    ensures
        ({
            let found = resolve(stack, name);
            let plain = render_node(
                NodeView::Section(name, false, seq![NodeView::Text(x)]),
                stack,
                partials,
                depth,
            );
            let inverted = render_node(
                NodeView::Section(name, true, seq![NodeView::Text(x)]),
                stack,
                partials,
                depth,
            );
            &&& (found is None || found == Some(Value::Bool(false))) ==> plain == Seq::<
                char,
            >::empty() && inverted == x
            &&& found == Some(Value::Bool(true)) ==> plain == x && inverted == Seq::<char>::empty()
            &&& found matches Some(Value::List(items)) ==> plain == repeated(x, items.len())
                && inverted == if items.len() == 0 {
                x
            } else {
                Seq::<char>::empty()
            }
        }),
{
    let children = seq![NodeView::Text(x)];
    law_inverted_complement(name, children, stack, partials, depth);
    lemma_render_text(x, stack, partials, depth);
    if let Some(Value::List(items)) = resolve(stack, name) {
        lemma_each_text(x, items, stack, partials, depth);
    }
}

/// A single text node renders as its text against any stack.
proof fn lemma_render_text(
    x: Seq<char>,
    stack: Seq<Value>,
    partials: Map<Seq<char>, Seq<NodeView>>,
    depth: nat,
)
    ensures
        render_nodes(seq![NodeView::Text(x)], stack, partials, depth) == x,
{
    let nodes = seq![NodeView::Text(x)];
    assert(render_nodes(nodes.drop_last(), stack, partials, depth) == Seq::<char>::empty());
    assert(render_node(nodes.last(), stack, partials, depth) == x);
}

/// A single text node rendered for each of `items` is its text that many
/// times.
proof fn lemma_each_text(
    x: Seq<char>,
    items: Seq<Value>,
    stack: Seq<Value>,
    partials: Map<Seq<char>, Seq<NodeView>>,
    depth: nat,
)
    ensures
        render_each(seq![NodeView::Text(x)], items, stack, partials, depth) == repeated(
            x,
            items.len(),
        ),
    decreases items.len(),
{
    if items.len() > 0 {
        lemma_each_text(x, items.drop_last(), stack, partials, depth);
        lemma_render_text(x, stack.push(items.last()), partials, depth);
    }
}

/// The text that a token was read from, given the delimiters in force.
pub open spec fn token_source(token: TokenView, open: Seq<char>, close: Seq<char>) -> Seq<char> {
    match token {
        TokenView::Text(text) => text,
        TokenView::Tag(_, _, raw) => open + raw + close,
    }
}

/// The opening delimiter in force behind a token.
pub open spec fn open_after(token: TokenView, open: Seq<char>) -> Seq<char> {
    match token {
        TokenView::Tag(TagKind::DelimiterChange, _, raw) => directive_open(
            raw.subrange(1, raw.len() - 1),
        ),
        _ => open,
    }
}

/// The closing delimiter in force behind a token.
pub open spec fn close_after(token: TokenView, close: Seq<char>) -> Seq<char> {
    match token {
        TokenView::Tag(TagKind::DelimiterChange, _, raw) => directive_close(
            raw.subrange(1, raw.len() - 1),
        ),
        _ => close,
    }
}

/// The text that `tokens` were read from, one after the other, starting with
/// the given delimiters.
pub open spec fn source_of(tokens: Seq<TokenView>, open: Seq<char>, close: Seq<char>) -> Seq<char>
    decreases tokens.len(),
{
    if tokens.len() == 0 {
        Seq::empty()
    } else {
        token_source(tokens[0], open, close) + source_of(
            tokens.drop_first(),
            open_after(tokens[0], open),
            close_after(tokens[0], close),
        )
    }
}

/// The tokens of a template cover it without gap or overlap: the texts they
/// were read from, put one after the other, are the template.
pub proof fn law_tokens_cover_text(text: Seq<char>, tokens: Seq<TokenView>)
    requires
        lex(text) == Ok::<Seq<TokenView>, ErrorView>(tokens),
    ensures
        source_of(tokens, default_open(), default_close()) == text,
{
    lemma_tokens_cover(text, 0, default_open(), default_close(), tokens);
}

proof fn lemma_source_of_first(
    token: TokenView,
    rest: Seq<TokenView>,
    open: Seq<char>,
    close: Seq<char>,
)
    ensures
        source_of(seq![token] + rest, open, close) == token_source(token, open, close) + source_of(
            rest,
            open_after(token, open),
            close_after(token, close),
        ),
{
    assert((seq![token] + rest).drop_first() == rest);
}

proof fn lemma_tokens_cover(
    s: Seq<char>,
    pos: int,
    open: Seq<char>,
    close: Seq<char>,
    tokens: Seq<TokenView>,
)
    requires
        0 <= pos <= s.len(),
        lex_from(s, pos, open, close) == Ok::<Seq<TokenView>, ErrorView>(tokens),
    ensures
        source_of(tokens, open, close) == s.subrange(pos, s.len() as int),
    decreases s.len() - pos,
{
    let end: int = s.len() as int;
    if pos >= s.len() {
        assert(s.subrange(pos, end) == Seq::<char>::empty());
    } else if find(s, open, pos) is None {
        let token = TokenView::Text(s.subrange(pos, end));
        lemma_source_of_first(token, Seq::empty(), open, close);
    } else {
        lemma_find_some(s, open, pos);
        let j: int = find(s, open, pos).unwrap();
        let p: int = j + open.len();
        let scan = scan_tag(s, p, open, close).unwrap();
        lemma_scan_tag(s, p, open, close);
        let rest = lex_from(s, scan.end, scan.open, scan.close)->Ok_0;
        lemma_tokens_cover(s, scan.end, scan.open, scan.close, rest);
        lemma_source_of_first(scan.token, rest, open, close);
        lemma_tag_source(s, p, open, close);
        assert(open + s.subrange(p, scan.end) == s.subrange(j, scan.end));
        assert(s.subrange(j, scan.end) + s.subrange(scan.end, end) == s.subrange(j, end));
        if pos < j {
            let before = TokenView::Text(s.subrange(pos, j));
            assert(tokens == seq![before] + (seq![scan.token] + rest));
            lemma_source_of_first(before, seq![scan.token] + rest, open, close);
            assert(s.subrange(pos, j) + s.subrange(j, end) == s.subrange(pos, end));
        }
    }
}

/// A tag read at `p` was read from `s[p..end]`, and names in its content the
/// delimiters that it leaves in force.
proof fn lemma_tag_source(s: Seq<char>, p: int, open: Seq<char>, close: Seq<char>)
    requires
        0 <= p,
        scan_tag(s, p, open, close) is Some,
    ensures
        ({
            let scan = scan_tag(s, p, open, close).unwrap();
            &&& scan.token matches TokenView::Tag(_, _, raw) && raw + close == s.subrange(
                p,
                scan.end,
            )
            &&& scan.open == open_after(scan.token, open)
            &&& scan.close == close_after(scan.token, close)
        }),
{
    let scan = scan_tag(s, p, open, close).unwrap();
    if p < s.len() && s[p] == '{' {
        let pat = seq!['}'] + close;
        lemma_find_some(s, pat, p + 1);
        assert(pat.subrange(1, pat.len() as int) == close);
    } else if p < s.len() && s[p] == '=' {
        let pat = seq!['='] + close;
        lemma_find_some(s, pat, p + 1);
        let e = find(s, pat, p + 1).unwrap();
        assert(pat.subrange(1, pat.len() as int) == close);
        let raw = s.subrange(p, e + 1);
        assert(raw.subrange(1, raw.len() - 1) == s.subrange(p + 1, e));
    } else {
        lemma_find_some(s, close, p);
    }
}

/// What of a token the tree keeps: a text, or a tag's kind and name.
pub enum Mark {
    Text(Seq<char>),
    Tag(TagKind, Seq<char>),
}

/// The mark of a token; comments and delimiter changes leave none.
pub open spec fn marks_of_token(token: TokenView) -> Seq<Mark> {
    match token {
        TokenView::Text(text) => seq![Mark::Text(text)],
        TokenView::Tag(TagKind::Comment, _, _) => Seq::empty(),
        TokenView::Tag(TagKind::DelimiterChange, _, _) => Seq::empty(),
        TokenView::Tag(kind, name, _) => seq![Mark::Tag(kind, name)],
    }
}

/// The marks of `tokens`, in order.
pub open spec fn marks_of_tokens(tokens: Seq<TokenView>) -> Seq<Mark>
    decreases tokens.len(),
{
    if tokens.len() == 0 {
        Seq::empty()
    } else {
        marks_of_tokens(tokens.drop_last()) + marks_of_token(tokens.last())
    }
}

/// The tag that opens a section.
pub open spec fn opening_mark(name: Seq<char>, inverted: bool) -> Mark {
    if inverted {
        Mark::Tag(TagKind::InvertedSectionOpen, name)
    } else {
        Mark::Tag(TagKind::SectionOpen, name)
    }
}

/// The marks that a node is written with: a section is its opening tag, its
/// children and a closing tag of its own name.
pub open spec fn marks_of_node(node: NodeView) -> Seq<Mark>
    decreases node, 0nat,
{
    match node {
        NodeView::Text(text) => seq![Mark::Text(text)],
        NodeView::Variable(name, escaped) => if escaped {
            seq![Mark::Tag(TagKind::Variable, name)]
        } else {
            seq![Mark::Tag(TagKind::UnescapedVariable, name)]
        },
        NodeView::Section(name, inverted, children) => seq![opening_mark(name, inverted)]
            + marks_of_nodes(children) + seq![Mark::Tag(TagKind::SectionClose, name)],
        NodeView::Partial(name) => seq![Mark::Tag(TagKind::Partial, name)],
        NodeView::Comment => Seq::empty(),
    }
}

/// The marks that `nodes` are written with, in order.
pub open spec fn marks_of_nodes(nodes: Seq<NodeView>) -> Seq<Mark>
    decreases nodes, 0nat,
{
    if nodes.len() == 0 {
        Seq::empty()
    } else {
        marks_of_nodes(nodes.drop_last()) + marks_of_node(nodes.last())
    }
}

/// The tree keeps the tokens in their order: written out again, it gives the
/// text and tags of the tokens it was parsed from but for comments and
/// delimiter changes, with each section closed by a tag of its own name.
pub proof fn law_tree_keeps_tokens(tokens: Seq<TokenView>, nodes: Seq<NodeView>)
    requires
        parse_tokens(tokens) == Ok::<Seq<NodeView>, ErrorView>(nodes),
    ensures
        marks_of_nodes(nodes) == marks_of_tokens(tokens),
{
    let st = parse_all(tokens)->Ok_0;
    lemma_state_keeps_tokens(tokens, st);
}

/// The marks of the sections that are open, with what was gathered around
/// each before it opened.
spec fn marks_of_frames(stack: Seq<Frame>) -> Seq<Mark>
    decreases stack.len(),
{
    if stack.len() == 0 {
        Seq::empty()
    } else {
        marks_of_frames(stack.drop_last()) + marks_of_nodes(stack.last().saved) + seq![
            opening_mark(stack.last().name, stack.last().inverted),
        ]
    }
}

proof fn lemma_marks_push(nodes: Seq<NodeView>, node: NodeView)
    ensures
        marks_of_nodes(nodes.push(node)) == marks_of_nodes(nodes) + marks_of_node(node),
{
    assert(nodes.push(node).drop_last() == nodes);
}

proof fn lemma_state_keeps_tokens(tokens: Seq<TokenView>, st: ParseState)
    requires
        parse_all(tokens) == Ok::<ParseState, ErrorView>(st),
    ensures
        marks_of_frames(st.stack) + marks_of_nodes(st.current) == marks_of_tokens(tokens),
    decreases tokens.len(),
{
    if tokens.len() > 0 {
        let before = parse_all(tokens.drop_last())->Ok_0;
        lemma_state_keeps_tokens(tokens.drop_last(), before);
        match tokens.last() {
            TokenView::Text(text) => {
                let node = NodeView::Text(text);
                lemma_marks_push(before.current, node);
            },
            TokenView::Tag(kind, name, _) => {
                match kind {
                    TagKind::Variable => {
                        let node = NodeView::Variable(name, true);
                        lemma_marks_push(before.current, node);
                    },
                    TagKind::UnescapedVariable => {
                        let node = NodeView::Variable(name, false);
                        lemma_marks_push(before.current, node);
                    },
                    TagKind::Partial => {
                        let node = NodeView::Partial(name);
                        lemma_marks_push(before.current, node);
                    },
                    TagKind::SectionOpen => {
                        assert(st.stack.drop_last() == before.stack);
                    },
                    TagKind::InvertedSectionOpen => {
                        assert(st.stack.drop_last() == before.stack);
                    },
                    TagKind::SectionClose => {
                        let frame = before.stack.last();
                        let node = NodeView::Section(name, frame.inverted, before.current);
                        lemma_marks_push(frame.saved, node);
                    },
                    TagKind::Comment => {},
                    TagKind::DelimiterChange => {},
                }
            },
        }
    }
}

/// Rendering `node` never comes to a partial that `partials` holds with no
/// depth left to enter it.
pub open spec fn node_within(
    node: NodeView,
    stack: Seq<Value>,
    partials: Map<Seq<char>, Seq<NodeView>>,
    depth: nat,
) -> bool
    decreases depth, node, 0nat,
{
    match node {
        NodeView::Section(name, inverted, children) => {
            let found = resolve(stack, name);
            if inverted {
                falsy(found) ==> nodes_within(children, stack, partials, depth)
            } else {
                match found {
                    Some(Value::List(items)) => each_within(
                        children,
                        items,
                        stack,
                        partials,
                        depth,
                    ),
                    Some(Value::Table(m)) => nodes_within(
                        children,
                        stack.push(Value::Table(m)),
                        partials,
                        depth,
                    ),
                    _ => !falsy(found) ==> nodes_within(children, stack, partials, depth),
                }
            }
        },
        NodeView::Partial(name) => partials.contains_key(name) ==> depth > 0 && nodes_within(
            partials[name],
            stack,
            partials,
            (depth - 1) as nat,
        ),
        _ => true,
    }
}

/// Rendering `nodes` never comes to a partial with no depth left.
pub open spec fn nodes_within(
    nodes: Seq<NodeView>,
    stack: Seq<Value>,
    partials: Map<Seq<char>, Seq<NodeView>>,
    depth: nat,
) -> bool
    decreases depth, nodes, 0nat,
{
    nodes.len() > 0 ==> nodes_within(nodes.drop_last(), stack, partials, depth) && node_within(
        nodes.last(),
        stack,
        partials,
        depth,
    )
}

/// Rendering `children` for each of `items` never comes to a partial with no
/// depth left.
pub open spec fn each_within(
    children: Seq<NodeView>,
    items: Seq<Value>,
    stack: Seq<Value>,
    partials: Map<Seq<char>, Seq<NodeView>>,
    depth: nat,
) -> bool
    decreases depth, children, items.len() + 1,
{
    items.len() > 0 ==> each_within(children, items.drop_last(), stack, partials, depth)
        && nodes_within(children, stack.push(items.last()), partials, depth)
}

/// The depth limit only counts where it is reached: nodes that render without
/// coming to a partial with no depth left render the same with any greater
/// depth.
pub proof fn law_depth_not_reached(
    nodes: Seq<NodeView>,
    stack: Seq<Value>,
    partials: Map<Seq<char>, Seq<NodeView>>,
    depth: nat,
    more: nat,
)
    requires
        nodes_within(nodes, stack, partials, depth),
        depth <= more,
    ensures
        render_nodes(nodes, stack, partials, more) == render_nodes(nodes, stack, partials, depth),
    decreases depth, nodes, 0nat,
{
    if nodes.len() > 0 {
        law_depth_not_reached(nodes.drop_last(), stack, partials, depth, more);
        lemma_depth_not_reached_node(nodes.last(), stack, partials, depth, more);
    }
}

proof fn lemma_depth_not_reached_node(
    node: NodeView,
    stack: Seq<Value>,
    partials: Map<Seq<char>, Seq<NodeView>>,
    depth: nat,
    more: nat,
)
    requires
        node_within(node, stack, partials, depth),
        depth <= more,
    ensures
        render_node(node, stack, partials, more) == render_node(node, stack, partials, depth),
    decreases depth, node, 0nat,
{
    match node {
        NodeView::Section(name, inverted, children) => {
            let found = resolve(stack, name);
            if inverted {
                if falsy(found) {
                    law_depth_not_reached(children, stack, partials, depth, more);
                }
            } else {
                match found {
                    Some(Value::List(items)) => {
                        lemma_depth_not_reached_each(children, items, stack, partials, depth, more);
                    },
                    Some(Value::Table(m)) => {
                        law_depth_not_reached(
                            children,
                            stack.push(Value::Table(m)),
                            partials,
                            depth,
                            more,
                        );
                    },
                    _ => {
                        if !falsy(found) {
                            law_depth_not_reached(children, stack, partials, depth, more);
                        }
                    },
                }
            }
        },
        NodeView::Partial(name) => {
            if partials.contains_key(name) {
                law_depth_not_reached(
                    partials[name],
                    stack,
                    partials,
                    (depth - 1) as nat,
                    (more - 1) as nat,
                );
            }
        },
        _ => {},
    }
}

proof fn lemma_depth_not_reached_each(
    children: Seq<NodeView>,
    items: Seq<Value>,
    stack: Seq<Value>,
    partials: Map<Seq<char>, Seq<NodeView>>,
    depth: nat,
    more: nat,
)
    requires
        each_within(children, items, stack, partials, depth),
        depth <= more,
    ensures
        render_each(children, items, stack, partials, more) == render_each(
            children,
            items,
            stack,
            partials,
            depth,
        ),
    decreases depth, children, items.len() + 1,
{
    if items.len() > 0 {
        lemma_depth_not_reached_each(children, items.drop_last(), stack, partials, depth, more);
        law_depth_not_reached(children, stack.push(items.last()), partials, depth, more);
    }
}

/// Every partial tag in `nodes` has a name in `asked`.
pub open spec fn all_asked(nodes: Seq<NodeView>, asked: Set<Seq<char>>) -> bool {
    forall|i: int|
        0 <= i < partial_names(nodes).len() ==> asked.contains(#[trigger] partial_names(nodes)[i])
}

/// For the names in `asked`, `loaded` holds what `source` holds, and it holds
/// nothing else; the partial tags in what it holds have names in `asked`.
pub open spec fn loaded_from(
    loaded: Map<Seq<char>, Seq<NodeView>>,
    source: Map<Seq<char>, Seq<NodeView>>,
    asked: Set<Seq<char>>,
) -> bool {
    &&& forall|name: Seq<char>| #[trigger]
        asked.contains(name) ==> loaded.contains_key(name) == source.contains_key(name)
    &&& forall|name: Seq<char>| #[trigger]
        loaded.contains_key(name) ==> asked.contains(name) && loaded[name] == source[name]
            && all_asked(loaded[name], asked)
}

/// Once a loader has no name left to look at, the partials that it was
/// supplied with are all that rendering needs: if each name that was asked
/// for was supplied as the source of the partials holds it, and not supplied
/// where the source does not hold it, then rendering with what was supplied
/// is rendering with the source.
pub proof fn law_loaded_partials_suffice(
    loader: Loader,
    nodes: Seq<NodeView>,
    stack: Seq<Value>,
    source: Map<Seq<char>, Seq<NodeView>>,
    depth: nat,
)
    requires
        loader.closed(),
        loader.covers(nodes),
        loader.pending@.len() == 0,
        forall|name: Seq<char>|
            loader.is_asked(name) ==> loader.partials@.contains_key(name) == source.contains_key(
                name,
            ),
        forall|name: Seq<char>| #[trigger]
            loader.partials@.contains_key(name) ==> loader.partials@[name] == source[name],
    ensures
        render_nodes(nodes, stack, loader.partials@, depth) == render_nodes(
            nodes,
            stack,
            source,
            depth,
        ),
{
    let asked = Set::new(|name: Seq<char>| loader.is_asked(name));
    assert forall|name: Seq<char>| #[trigger]
        loader.partials@.contains_key(name) implies all_asked(loader.partials@[name], asked) by {
        assert(loader.covers(loader.partials@[name]));
    }
    lemma_same_nodes(nodes, stack, loader.partials@, source, asked, depth);
}

proof fn lemma_same_nodes(
    nodes: Seq<NodeView>,
    stack: Seq<Value>,
    loaded: Map<Seq<char>, Seq<NodeView>>,
    source: Map<Seq<char>, Seq<NodeView>>,
    asked: Set<Seq<char>>,
    depth: nat,
)
    requires
        loaded_from(loaded, source, asked),
        all_asked(nodes, asked),
    ensures
        render_nodes(nodes, stack, loaded, depth) == render_nodes(nodes, stack, source, depth),
    decreases depth, nodes, 0nat,
{
    if nodes.len() > 0 {
        let head = partial_names(nodes.drop_last());
        let tail = partial_names_of(nodes.last());
        assert forall|i: int| 0 <= i < head.len() implies asked.contains(#[trigger] head[i]) by {
            assert(partial_names(nodes)[i] == head[i]);
        }
        assert forall|i: int| 0 <= i < tail.len() implies asked.contains(#[trigger] tail[i]) by {
            assert(partial_names(nodes)[head.len() + i] == tail[i]);
        }
        lemma_same_nodes(nodes.drop_last(), stack, loaded, source, asked, depth);
        lemma_same_node(nodes.last(), stack, loaded, source, asked, depth);
    }
}

proof fn lemma_same_node(
    node: NodeView,
    stack: Seq<Value>,
    loaded: Map<Seq<char>, Seq<NodeView>>,
    source: Map<Seq<char>, Seq<NodeView>>,
    asked: Set<Seq<char>>,
    depth: nat,
)
    requires
        loaded_from(loaded, source, asked),
        forall|i: int|
            0 <= i < partial_names_of(node).len() ==> asked.contains(
                #[trigger] partial_names_of(node)[i],
            ),
    ensures
        render_node(node, stack, loaded, depth) == render_node(node, stack, source, depth),
    decreases depth, node, 0nat,
{
    match node {
        NodeView::Section(name, inverted, children) => {
            let found = resolve(stack, name);
            assert forall|i: int| 0 <= i < partial_names(children).len() implies asked.contains(
                #[trigger] partial_names(children)[i],
            ) by {
                assert(partial_names_of(node)[i] == partial_names(children)[i]);
            }
            if inverted {
                lemma_same_nodes(children, stack, loaded, source, asked, depth);
            } else {
                match found {
                    Some(Value::List(items)) => {
                        lemma_same_each(children, items, stack, loaded, source, asked, depth);
                    },
                    Some(Value::Table(m)) => {
                        lemma_same_nodes(
                            children,
                            stack.push(Value::Table(m)),
                            loaded,
                            source,
                            asked,
                            depth,
                        );
                    },
                    _ => {
                        lemma_same_nodes(children, stack, loaded, source, asked, depth);
                    },
                }
            }
        },
        NodeView::Partial(name) => {
            assert(partial_names_of(node)[0] == name);
            if depth > 0 && loaded.contains_key(name) {
                lemma_same_nodes(
                    loaded[name],
                    stack,
                    loaded,
                    source,
                    asked,
                    (depth - 1) as nat,
                );
            }
        },
        _ => {},
    }
}

proof fn lemma_same_each(
    children: Seq<NodeView>,
    items: Seq<Value>,
    stack: Seq<Value>,
    loaded: Map<Seq<char>, Seq<NodeView>>,
    source: Map<Seq<char>, Seq<NodeView>>,
    asked: Set<Seq<char>>,
    depth: nat,
)
    requires
        loaded_from(loaded, source, asked),
        all_asked(children, asked),
    ensures
        render_each(children, items, stack, loaded, depth) == render_each(
            children,
            items,
            stack,
            source,
            depth,
        ),
    decreases depth, children, items.len() + 1,
{
    if items.len() > 0 {
        lemma_same_each(children, items.drop_last(), stack, loaded, source, asked, depth);
        lemma_same_nodes(children, stack.push(items.last()), loaded, source, asked, depth);
    }
}

} // verus!
