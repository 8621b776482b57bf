//! The parser: a sequence of tokens to a tree of nodes.
//!
//! Tokens are taken one after the other. Sections that are open are kept on a
//! stack, each with the nodes that were gathered around it before it opened.

use crate::compiler::{tokens_view, TagKind, Token, TokenView};
use crate::error::{Error, ErrorView};
use vstd::prelude::*;

verus! {

/// A piece of a parsed template.
#[derive(Debug, PartialEq, Eq)]
pub enum Node {
    /// Literal text.
    Text(String),
    /// The value under a name; escaped where the flag is set.
    Variable(String, bool),
    /// What stands between `{{#name}}` (or `{{^name}}`, where the flag is
    /// set) and `{{/name}}`.
    Section(String, bool, Vec<Node>),
    /// The inclusion of the template of that name.
    Partial(String),
    /// A comment, which renders as nothing.
    Comment,
}

/// A `Node` with its strings as sequences of characters.
pub enum NodeView {
    Text(Seq<char>),
    Variable(Seq<char>, bool),
    Section(Seq<char>, bool, Seq<NodeView>),
    Partial(Seq<char>),
    Comment,
}

impl View for Node {
    type V = NodeView;

    open spec fn view(&self) -> NodeView
        decreases self,
    {
        match self {
            Node::Text(text) => NodeView::Text(text@),
            Node::Variable(name, escaped) => NodeView::Variable(name@, *escaped),
            Node::Section(name, inverted, children) => NodeView::Section(
                name@,
                *inverted,
                Seq::new(
                    children@.len(),
                    |i: int|
                        if 0 <= i < children@.len() {
                            children@[i]@
                        } else {
                            NodeView::Comment
                        },
                ),
            ),
            Node::Partial(name) => NodeView::Partial(name@),
            Node::Comment => NodeView::Comment,
        }
    }
}

/// The views of `nodes`, in order.
pub open spec fn nodes_view(nodes: Seq<Node>) -> Seq<NodeView> {
    nodes.map_values(|n: Node| n@)
}

/// A section's view holds the views of its children.
pub proof fn lemma_section_view(name: String, inverted: bool, children: Vec<Node>)
    ensures
        Node::Section(name, inverted, children)@ == NodeView::Section(
            name@,
            inverted,
            nodes_view(children@),
        ),
{
    assert(Node::Section(name, inverted, children)@->Section_2 =~= nodes_view(children@));
}

/// A section that is open: its name, whether it is inverted, and the nodes
/// gathered around it before it opened.
pub struct Frame {
    pub name: Seq<char>,
    pub inverted: bool,
    pub saved: Seq<NodeView>,
}

/// Where the parser stands: the open sections, outermost first, and the nodes
/// gathered inside the innermost of them.
pub struct ParseState {
    pub stack: Seq<Frame>,
    pub current: Seq<NodeView>,
}

/// The state with `node` added to the innermost open section.
pub open spec fn with_node(st: ParseState, node: NodeView) -> ParseState {
    ParseState { stack: st.stack, current: st.current.push(node) }
}

/// The state with a section of that name opened.
pub open spec fn with_section(st: ParseState, name: Seq<char>, inverted: bool) -> ParseState {
    ParseState {
        stack: st.stack.push(Frame { name, inverted, saved: st.current }),
        current: Seq::empty(),
    }
}

/// The state after one more token.
///
/// Text, variables and partials add a node. A section tag opens a frame. A
/// closing tag must find a frame open, and of its own name: the frame then
/// becomes a section node of the frame around it. Comments and delimiter
/// changes leave no node.
pub open spec fn parse_step(st: ParseState, token: TokenView) -> Result<ParseState, ErrorView> {
    match token {
        TokenView::Text(text) => Ok(with_node(st, NodeView::Text(text))),
        TokenView::Tag(kind, name, _) => match kind {
            TagKind::Variable => Ok(with_node(st, NodeView::Variable(name, true))),
            TagKind::UnescapedVariable => Ok(with_node(st, NodeView::Variable(name, false))),
            TagKind::SectionOpen => Ok(with_section(st, name, false)),
            TagKind::InvertedSectionOpen => Ok(with_section(st, name, true)),
            TagKind::SectionClose => if st.stack.len() == 0 {
                Err(ErrorView::UnmatchedSectionClose(name))
            } else if st.stack.last().name != name {
                Err(ErrorView::SectionNameMismatch(st.stack.last().name, name))
            } else {
                Ok(
                    ParseState {
                        stack: st.stack.drop_last(),
                        current: st.stack.last().saved.push(
                            NodeView::Section(name, st.stack.last().inverted, st.current),
                        ),
                    },
                )
            },
            TagKind::Partial => Ok(with_node(st, NodeView::Partial(name))),
            TagKind::Comment => Ok(st),
            TagKind::DelimiterChange => Ok(st),
        },
    }
}

/// The state after all of `tokens`, or the error of the first token that
/// cannot be taken.
pub open spec fn parse_all(tokens: Seq<TokenView>) -> Result<ParseState, ErrorView>
    decreases tokens.len(),
{
    if tokens.len() == 0 {
        Ok(ParseState { stack: Seq::empty(), current: Seq::empty() })
    } else {
        match parse_all(tokens.drop_last()) {
            Err(e) => Err(e),
            Ok(st) => parse_step(st, tokens.last()),
        }
    }
}

/// The nodes at the root of the tree that `tokens` make up. A section that is
/// still open at the end is an error that names the innermost such section.
pub open spec fn parse_tokens(tokens: Seq<TokenView>) -> Result<Seq<NodeView>, ErrorView> {
    match parse_all(tokens) {
        Err(e) => Err(e),
        Ok(st) => if st.stack.len() == 0 {
            Ok(st.current)
        } else {
            Err(ErrorView::UnclosedSection(st.stack.last().name))
        },
    }
}

/// An error on a prefix of the tokens is the error on all of them.
pub proof fn lemma_parse_all_error(tokens: Seq<TokenView>, k: int)
    requires
        0 <= k <= tokens.len(),
        parse_all(tokens.take(k)) is Err,
    ensures
        parse_all(tokens) == parse_all(tokens.take(k)),
    decreases tokens.len() - k,
{
    if k < tokens.len() {
        assert(tokens.take(k + 1).drop_last() == tokens.take(k));
        lemma_parse_all_error(tokens, k + 1);
    } else {
        assert(tokens.take(k) == tokens);
    }
}

/// An open section as the parser holds it.
struct OpenSection {
    name: String,
    inverted: bool,
    saved: Vec<Node>,
}

impl View for OpenSection {
    type V = Frame;

    closed spec fn view(&self) -> Frame {
        Frame { name: self.name@, inverted: self.inverted, saved: nodes_view(self.saved@) }
    }
}

spec fn frames_view(stack: Seq<OpenSection>) -> Seq<Frame> {
    stack.map_values(|f: OpenSection| f@)
}

/// Builds the tree of nodes that `tokens` describe.
///
/// Fails with `UnmatchedSectionClose` at a closing tag where no section is
/// open, with `SectionNameMismatch` at one whose name is not that of the
/// innermost open section, and with `UnclosedSection` where a section is
/// still open at the end.
pub fn parse(tokens: &Vec<Token>) -> (r: Result<Vec<Node>, Error>)
    ensures
        match r {
            Ok(nodes) => parse_tokens(tokens_view(tokens@)) == Ok::<Seq<NodeView>, ErrorView>(
                nodes_view(nodes@),
            ),
            Err(e) => parse_tokens(tokens_view(tokens@)) == Err::<Seq<NodeView>, ErrorView>(e@),
        },
{
    let ghost all = tokens_view(tokens@);
    let mut stack: Vec<OpenSection> = Vec::new();
    let mut current: Vec<Node> = Vec::new();
    let mut i: usize = 0;
    assert(frames_view(stack@) == Seq::<Frame>::empty());
    assert(nodes_view(current@) == Seq::<NodeView>::empty());
    while i < tokens.len()
        invariant
            i <= tokens.len(),
            all == tokens_view(tokens@),
            parse_all(all.take(i as int)) == Ok::<ParseState, ErrorView>(
                ParseState { stack: frames_view(stack@), current: nodes_view(current@) },
            ),
        decreases tokens.len() - i,
    {
        let ghost before = nodes_view(current@);
        let ghost frames = frames_view(stack@);
        proof {
            assert(all.take(i + 1).drop_last() == all.take(i as int));
        }
        match &tokens[i] {
            Token::Text(text) => {
                current.push(Node::Text(text.clone()));
                assert(nodes_view(current@) == before.push(NodeView::Text(text@)));
            },
            Token::Tag(kind, name, _) => match kind {
                TagKind::Variable => {
                    current.push(Node::Variable(name.clone(), true));
                    assert(nodes_view(current@) == before.push(NodeView::Variable(name@, true)));
                },
                TagKind::UnescapedVariable => {
                    current.push(Node::Variable(name.clone(), false));
                    assert(nodes_view(current@) == before.push(NodeView::Variable(name@, false)));
                },
                TagKind::SectionOpen => {
                    stack.push(OpenSection { name: name.clone(), inverted: false, saved: current });
                    current = Vec::new();
                    assert(frames_view(stack@) == frames.push(
                        Frame { name: name@, inverted: false, saved: before },
                    ));
                    assert(nodes_view(current@) == Seq::<NodeView>::empty());
                },
                TagKind::InvertedSectionOpen => {
                    stack.push(OpenSection { name: name.clone(), inverted: true, saved: current });
                    current = Vec::new();
                    assert(frames_view(stack@) == frames.push(
                        Frame { name: name@, inverted: true, saved: before },
                    ));
                    assert(nodes_view(current@) == Seq::<NodeView>::empty());
                },
                TagKind::SectionClose => {
                    match stack.pop() {
                        None => {
                            proof {
                                lemma_parse_all_error(all, i + 1);
                            }
                            return Err(Error::UnmatchedSectionClose(name.clone()));
                        },
                        Some(frame) => {
                            assert(frames_view(stack@) == frames.drop_last());
                            if frame.name != *name {
                                proof {
                                    lemma_parse_all_error(all, i + 1);
                                }
                                return Err(Error::SectionNameMismatch(frame.name, name.clone()));
                            }
                            proof {
                                lemma_section_view(frame.name, frame.inverted, current);
                            }
                            let node = Node::Section(frame.name, frame.inverted, current);
                            current = frame.saved;
                            let ghost saved = nodes_view(current@);
                            current.push(node);
                            assert(nodes_view(current@) == saved.push(node@));
                        },
                    }
                },
                TagKind::Partial => {
                    current.push(Node::Partial(name.clone()));
                    assert(nodes_view(current@) == before.push(NodeView::Partial(name@)));
                },
                TagKind::Comment => {},
                TagKind::DelimiterChange => {},
            },
        }
        i += 1;
    }
    assert(all.take(i as int) == all);
    match stack.pop() {
        Some(frame) => {
            Err(Error::UnclosedSection(frame.name))
        },
        None => Ok(current),
    }
}

} // verus!
