use rustache::compiler::compile;
use rustache::data::Data;
use rustache::loader::{collect_partial_names, Loader};
use rustache::parser::{parse, Node};
use rustache::template::{render, Partials};

fn s(text: &str) -> String {
    String::from(text)
}

fn nodes_of(template: &str) -> Vec<Node> {
    parse(&compile(template).unwrap()).unwrap()
}

/// Runs a loader to its end against a table of templates.
fn load(nodes: &Vec<Node>, source: &[(&str, &str)]) -> (Partials, Vec<String>) {
    let mut loader = Loader::new(nodes);
    let mut asked = Vec::new();
    while let Some(name) = loader.next() {
        asked.push(name.clone());
        if let Some((_, template)) = source.iter().find(|(n, _)| *n == name) {
            loader.supply(name, nodes_of(template));
        }
    }
    (loader.finish(), asked)
}

#[test]
fn partial_names_come_in_the_order_of_the_text() {
    let nodes = nodes_of("{{>a}}x{{#s}}{{>b}}{{^t}}{{>a}}{{/t}}{{/s}}{{y}}{{>c}}");
    assert_eq!(collect_partial_names(&nodes), vec![s("a"), s("b"), s("a"), s("c")]);
}

#[test]
fn template_without_partials_names_none() {
    assert_eq!(collect_partial_names(&nodes_of("a{{b}}{{#c}}{{{d}}}{{/c}}")), Vec::<String>::new());
    assert_eq!(collect_partial_names(&vec![]), Vec::<String>::new());
}

#[test]
fn loader_starts_with_the_names_in_the_template() {
    let loader = Loader::new(&nodes_of("{{>a}}{{>b}}"));
    assert_eq!(loader.pending, vec![s("a"), s("b")]);
    assert!(loader.asked.is_empty());
    assert!(loader.partials.entries.is_empty());
}

#[test]
fn loader_asks_for_each_name_once() {
    let mut loader = Loader::new(&nodes_of("{{>a}}{{>b}}{{>a}}{{>b}}{{>a}}"));
    let mut asked = Vec::new();
    while let Some(name) = loader.next() {
        asked.push(name);
    }
    asked.sort();
    assert_eq!(asked, vec![s("a"), s("b")]);
    assert_eq!(loader.next(), None);
    assert!(loader.pending.is_empty());
}

#[test]
fn loader_without_partials_asks_for_nothing() {
    let mut loader = Loader::new(&nodes_of("no partials {{here}}"));
    assert_eq!(loader.next(), None);
    assert!(loader.finish().entries.is_empty());
}

#[test]
fn supplied_template_makes_its_partials_wait() {
    let mut loader = Loader::new(&nodes_of("{{>a}}"));
    assert_eq!(loader.next(), Some(s("a")));
    assert_eq!(loader.next(), None);
    loader.supply(s("a"), nodes_of("{{>b}}{{>a}}{{>c}}"));
    let mut more = Vec::new();
    while let Some(name) = loader.next() {
        more.push(name);
    }
    more.sort();
    assert_eq!(more, vec![s("b"), s("c")]);
    assert_eq!(loader.finish().get("a"), Some(&nodes_of("{{>b}}{{>a}}{{>c}}")));
}

#[test]
fn supplied_name_is_not_asked_for_again() {
    let mut loader = Loader::new(&nodes_of("{{>a}}{{>b}}"));
    loader.supply(s("a"), nodes_of("x"));
    assert_eq!(loader.next(), Some(s("b")));
    assert_eq!(loader.next(), None);
}

#[test]
fn loader_follows_partials_through_partials() {
    let source = [("a", "[{{>b}}]"), ("b", "({{>c}}{{>a}})"), ("c", "c"), ("unused", "{{>d}}")];
    let (partials, mut asked) = load(&nodes_of("{{>a}}{{>missing}}"), &source);
    asked.sort();
    assert_eq!(asked, vec![s("a"), s("b"), s("c"), s("missing")]);
    assert!(partials.get("a").is_some());
    assert!(partials.get("b").is_some());
    assert!(partials.get("c").is_some());
    assert!(partials.get("missing").is_none());
    assert!(partials.get("unused").is_none());
}

#[test]
fn loaded_partials_render_like_the_whole_source() {
    let source = [
        ("row", "<{{v}}{{>cell}}>"),
        ("cell", "{{#on}}{{>mark}}{{/on}}"),
        ("mark", "*"),
        ("other", "{{>row}}"),
    ];
    let nodes = nodes_of("{{#rows}}{{>row}}{{/rows}}{{>nothing}}");
    let data = Data::Hash(vec![(
        s("rows"),
        Data::Vector(vec![
            Data::Hash(vec![(s("v"), Data::Strng(s("1"))), (s("on"), Data::Bool(true))]),
            Data::Hash(vec![(s("v"), Data::Strng(s("2")))]),
        ]),
    )]);
    let (loaded, _) = load(&nodes, &source);
    let mut whole = Partials::new();
    for (name, template) in source {
        whole.insert(s(name), nodes_of(template));
    }
    let out = render(&nodes, &data, &loaded);
    assert_eq!(out, render(&nodes, &data, &whole));
    assert_eq!(out, Ok(s("<1*><2>")));
}
