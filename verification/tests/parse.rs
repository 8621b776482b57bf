use rustache::compiler::{compile, TagKind, Token};
use rustache::error::Error;
use rustache::parser::{parse, Node};

fn s(t: &str) -> String {
    String::from(t)
}

fn tree(template: &str) -> Result<Vec<Node>, Error> {
    match compile(template) {
        Ok(tokens) => parse(&tokens),
        Err(e) => Err(e),
    }
}

#[test]
fn no_tokens_give_no_nodes() {
    assert_eq!(parse(&vec![]), Ok(vec![]));
}

#[test]
fn text_and_variables_become_nodes_in_order() {
    assert_eq!(
        tree("a{{x}}b{{{y}}}c{{&z}}"),
        Ok(vec![
            Node::Text(s("a")),
            Node::Variable(s("x"), true),
            Node::Text(s("b")),
            Node::Variable(s("y"), false),
            Node::Text(s("c")),
            Node::Variable(s("z"), false),
        ])
    );
}

#[test]
fn section_holds_its_children() {
    assert_eq!(
        tree("{{#s}}a{{x}}{{/s}}b"),
        Ok(vec![
            Node::Section(s("s"), false, vec![Node::Text(s("a")), Node::Variable(s("x"), true)]),
            Node::Text(s("b")),
        ])
    );
}

#[test]
fn inverted_section_sets_the_flag() {
    assert_eq!(
        tree("{{^s}}a{{/s}}"),
        Ok(vec![Node::Section(s("s"), true, vec![Node::Text(s("a"))])])
    );
}

#[test]
fn empty_section_has_no_children() {
    assert_eq!(tree("{{#s}}{{/s}}"), Ok(vec![Node::Section(s("s"), false, vec![])]));
}

#[test]
fn sections_nest_as_written() {
    assert_eq!(
        tree("{{#a}}1{{#b}}2{{^c}}3{{/c}}4{{/b}}5{{/a}}6"),
        Ok(vec![
            Node::Section(
                s("a"),
                false,
                vec![
                    Node::Text(s("1")),
                    Node::Section(
                        s("b"),
                        false,
                        vec![
                            Node::Text(s("2")),
                            Node::Section(s("c"), true, vec![Node::Text(s("3"))]),
                            Node::Text(s("4")),
                        ],
                    ),
                    Node::Text(s("5")),
                ],
            ),
            Node::Text(s("6")),
        ])
    );
}

#[test]
fn section_may_hold_a_section_of_its_own_name() {
    assert_eq!(
        tree("{{#a}}{{#a}}x{{/a}}{{/a}}"),
        Ok(vec![Node::Section(
            s("a"),
            false,
            vec![Node::Section(s("a"), false, vec![Node::Text(s("x"))])],
        )])
    );
}

#[test]
fn partial_becomes_a_node() {
    assert_eq!(
        tree("a{{> part }}b"),
        Ok(vec![Node::Text(s("a")), Node::Partial(s("part")), Node::Text(s("b"))])
    );
}

#[test]
fn comments_and_delimiter_changes_leave_no_node() {
    assert_eq!(
        tree("a{{! note }}b{{=<% %>=}}c<%x%>"),
        Ok(vec![
            Node::Text(s("a")),
            Node::Text(s("b")),
            Node::Text(s("c")),
            Node::Variable(s("x"), true),
        ])
    );
}

#[test]
fn closing_tag_without_section_is_unmatched() {
    assert_eq!(tree("a{{/s}}"), Err(Error::UnmatchedSectionClose(s("s"))));
    assert_eq!(tree("{{#s}}{{/s}}{{/s}}"), Err(Error::UnmatchedSectionClose(s("s"))));
}

#[test]
fn closing_tag_of_another_name_is_a_mismatch() {
    assert_eq!(tree("{{#a}}...{{/b}}"), Err(Error::SectionNameMismatch(s("a"), s("b"))));
}

#[test]
fn crossing_sections_are_a_mismatch_with_the_inner_one() {
    assert_eq!(
        tree("{{#a}}{{#b}}{{/a}}{{/b}}"),
        Err(Error::SectionNameMismatch(s("b"), s("a")))
    );
}

#[test]
fn section_open_at_the_end_is_unclosed() {
    assert_eq!(tree("x{{#a}}"), Err(Error::UnclosedSection(s("a"))));
    assert_eq!(tree("{{^a}}text"), Err(Error::UnclosedSection(s("a"))));
}

#[test]
fn unclosed_names_the_innermost_section() {
    assert_eq!(tree("{{#a}}{{#b}}x"), Err(Error::UnclosedSection(s("b"))));
    assert_eq!(tree("{{#a}}{{#b}}x{{/b}}"), Err(Error::UnclosedSection(s("a"))));
}

#[test]
fn first_error_in_token_order_is_reported() {
    assert_eq!(tree("{{/x}}{{#a}}"), Err(Error::UnmatchedSectionClose(s("x"))));
    assert_eq!(tree("{{#a}}{{/b}}{{/c}}"), Err(Error::SectionNameMismatch(s("a"), s("b"))));
}

#[test]
fn parse_takes_tokens_made_by_hand() {
    let tokens = vec![
        Token::Tag(TagKind::SectionOpen, s("list"), s("#list")),
        Token::Text(s("- ")),
        Token::Tag(TagKind::Variable, s("item"), s("item")),
        Token::Tag(TagKind::Comment, s(""), s("!")),
        Token::Tag(TagKind::SectionClose, s("list"), s("/list")),
    ];
    assert_eq!(
        parse(&tokens),
        Ok(vec![Node::Section(
            s("list"),
            false,
            vec![Node::Text(s("- ")), Node::Variable(s("item"), true)],
        )])
    );
}

#[test]
fn error_text_names_the_sections() {
    assert_eq!(Error::MalformedTag.to_text(), "malformed tag");
    assert_eq!(
        Error::UnmatchedSectionClose(s("a")).to_text(),
        "closing tag without an open section: a"
    );
    assert_eq!(
        Error::SectionNameMismatch(s("a"), s("b")).to_text(),
        "section a closed by b"
    );
    assert_eq!(Error::UnclosedSection(s("a")).to_text(), "section not closed: a");
    assert_eq!(Error::InvalidRootContext.to_text(), "the data at the root is not a hash");
}
