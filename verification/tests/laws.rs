use rustache::compiler::{compile, TagKind, Token};
use rustache::data::Data;
use rustache::parser::{parse, Node};
use rustache::template::{render, render_text, Partials};
use rustache::text::escape_html;

fn s(text: &str) -> String {
    String::from(text)
}

fn hash(entries: Vec<(&str, Data)>) -> Data {
    let mut out = Vec::new();
    for (name, value) in entries {
        out.push((s(name), value));
    }
    Data::Hash(out)
}

/// The text that the tokens were read from, given the first delimiters.
fn source(tokens: &Vec<Token>) -> String {
    let mut open = s("{{");
    let mut close = s("}}");
    let mut out = String::new();
    for token in tokens {
        match token {
            Token::Text(text) => out.push_str(text),
            Token::Tag(kind, name, raw) => {
                out.push_str(&open);
                out.push_str(raw);
                out.push_str(&close);
                if *kind == TagKind::DelimiterChange {
                    let mut words = name.split_whitespace();
                    open = s(words.next().unwrap());
                    close = s(words.next().unwrap());
                }
            }
        }
    }
    out
}

/// The tags and texts that a tree is written with.
fn marks(nodes: &Vec<Node>, out: &mut Vec<(Option<TagKind>, String)>) {
    for node in nodes {
        match node {
            Node::Text(text) => out.push((None, text.clone())),
            Node::Variable(name, true) => out.push((Some(TagKind::Variable), name.clone())),
            Node::Variable(name, false) => out.push((Some(TagKind::UnescapedVariable), name.clone())),
            Node::Section(name, inverted, children) => {
                let kind = if *inverted { TagKind::InvertedSectionOpen } else { TagKind::SectionOpen };
                out.push((Some(kind), name.clone()));
                marks(children, out);
                out.push((Some(TagKind::SectionClose), name.clone()));
            }
            Node::Partial(name) => out.push((Some(TagKind::Partial), name.clone())),
            Node::Comment => {}
        }
    }
}

const TEMPLATES: [&str; 8] = [
    "",
    "no tags at all",
    "{{a}}",
    "x{{#s}}y{{{z}}}{{/s}}{{^t}}{{>p}}{{/t}} end",
    "{{! c }}{{=<% %>=}}<%#a%>text {{ }} <%{ b }%><%/a%><%={{ }}=%>{{&c}}",
    "{{  spaced  }} and {{#a}}{{#b}}{{/b}}{{/a}}",
    "unicode \u{e9}\u{2603} {{n\u{e4}me}} \u{1f600}",
    "}} stray {{=| |=}} |x| }} {{ |! note | tail",
];

#[test]
fn tokens_cover_the_template_without_gap_or_overlap() {
    for template in TEMPLATES {
        let tokens = compile(template).unwrap();
        assert_eq!(source(&tokens), template);
    }
}

#[test]
fn tree_keeps_the_tokens_in_order() {
    for template in TEMPLATES {
        let tokens = compile(template).unwrap();
        let nodes = parse(&tokens).unwrap();
        let mut from_tree = Vec::new();
        marks(&nodes, &mut from_tree);
        let mut from_tokens = Vec::new();
        for token in &tokens {
            match token {
                Token::Text(text) => from_tokens.push((None, text.clone())),
                Token::Tag(TagKind::Comment, _, _) => {}
                Token::Tag(TagKind::DelimiterChange, _, _) => {}
                Token::Tag(kind, name, _) => from_tokens.push((Some(*kind), name.clone())),
            }
        }
        assert_eq!(from_tree, from_tokens);
    }
}

#[test]
fn nodes_render_one_after_the_other() {
    let data = hash(vec![
        ("a", Data::Strng(s("<1>"))),
        ("list", Data::Vector(vec![Data::Bool(true), Data::Bool(false)])),
    ]);
    let first = "{{a}} and {{#list}}x{{/list}}";
    let second = "{{^none}}{{{a}}}{{/none}}!";
    let empty = Partials::new();
    let both = render_text(&format!("{}{}", first, second), &data, &empty).unwrap();
    let one = render_text(first, &data, &empty).unwrap();
    let two = render_text(second, &data, &empty).unwrap();
    assert_eq!(both, format!("{}{}", one, two));
    assert_eq!(both, "&lt;1&gt; and xx<1>!");
}

#[test]
fn list_section_renders_the_lists_one_after_the_other() {
    let item = |v: &str| hash(vec![("v", Data::Strng(s(v)))]);
    let nodes = parse(&compile("{{#l}}({{v}}){{/l}}").unwrap()).unwrap();
    let empty = Partials::new();
    let first = hash(vec![("l", Data::Vector(vec![item("a"), item("b")]))]);
    let second = hash(vec![("l", Data::Vector(vec![item("c")]))]);
    let joined = hash(vec![("l", Data::Vector(vec![item("a"), item("b"), item("c")]))]);
    let out = render(&nodes, &joined, &empty).unwrap();
    assert_eq!(
        out,
        format!("{}{}", render(&nodes, &first, &empty).unwrap(), render(&nodes, &second, &empty).unwrap())
    );
    assert_eq!(out, "(a)(b)(c)");
}

#[test]
fn escaped_text_holds_no_markup_characters() {
    let out = escape_html("<<>>\"\"''&& a < b > c \" d ' e & f");
    assert!(!out.contains('<'));
    assert!(!out.contains('>'));
    assert!(!out.contains('"'));
    assert!(!out.contains('\''));
    assert_eq!(
        out,
        "&lt;&lt;&gt;&gt;&quot;&quot;&#39;&#39;&amp;&amp; a &lt; b &gt; c &quot; d &#39; e &amp; f"
    );
}
