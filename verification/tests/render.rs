use rustache::compiler::compile;
use rustache::data::Data;
use rustache::error::Error;
use rustache::parser::{parse, Node};
use rustache::template::{render, render_text, render_within, Partials, PARTIAL_DEPTH_LIMIT};

fn s(text: &str) -> String {
    String::from(text)
}

fn string(text: &str) -> Data {
    Data::Strng(s(text))
}

fn hash(entries: Vec<(&str, Data)>) -> Data {
    let mut out = Vec::new();
    for (name, value) in entries {
        out.push((s(name), value));
    }
    Data::Hash(out)
}

fn nodes_of(template: &str) -> Vec<Node> {
    parse(&compile(template).unwrap()).unwrap()
}

fn partials(entries: Vec<(&str, &str)>) -> Partials {
    let mut out = Partials::new();
    for (name, template) in entries {
        out.insert(s(name), nodes_of(template));
    }
    out
}

fn show(template: &str, data: &Data) -> String {
    render_text(template, data, &Partials::new()).unwrap()
}

#[test]
fn literal_text_renders_unchanged() {
    let data = hash(vec![("x", string("y"))]);
    for text in ["", "plain", "a { b } c }} d", "line one\nline two\t<&>\"'", "\u{2603} snow"] {
        assert_eq!(render_text(text, &data, &Partials::new()), Ok(s(text)));
        assert_eq!(render_text(text, &hash(vec![]), &partials(vec![("p", "q")])), Ok(s(text)));
    }
}

#[test]
fn escaped_variable_replaces_the_five_characters() {
    let data = hash(vec![("x", string("<a>&\"'"))]);
    assert_eq!(
        render_text("{{x}}", &data, &Partials::new()),
        Ok(s("&lt;a&gt;&amp;&quot;&#39;"))
    );
}

#[test]
fn triple_brace_variable_is_not_escaped() {
    let data = hash(vec![("x", string("<a>&\"'"))]);
    assert_eq!(render_text("{{{x}}}", &data, &Partials::new()), Ok(s("<a>&\"'")));
}

#[test]
fn ampersand_variable_is_not_escaped() {
    let data = hash(vec![("x", string("<a>&\"'"))]);
    assert_eq!(render_text("{{&x}}", &data, &Partials::new()), Ok(s("<a>&\"'")));
}

#[test]
fn text_of_the_template_is_never_escaped() {
    let data = hash(vec![("x", string("&"))]);
    assert_eq!(show("<b>{{x}}</b> & \"more\"", &data), "<b>&amp;</b> & \"more\"");
}

#[test]
fn missing_name_renders_as_nothing() {
    assert_eq!(render_text("[{{missing}}]", &hash(vec![]), &Partials::new()), Ok(s("[]")));
    assert_eq!(render_text("[{{{missing}}}]", &hash(vec![]), &Partials::new()), Ok(s("[]")));
}

#[test]
fn boolean_variable_renders_as_a_word() {
    let data = hash(vec![("yes", Data::Bool(true)), ("no", Data::Bool(false))]);
    assert_eq!(show("{{yes}}/{{no}}/{{{yes}}}/{{&no}}", &data), "true/false/true/false");
}

#[test]
fn list_or_hash_as_a_variable_renders_as_nothing() {
    let data = hash(vec![
        ("list", Data::Vector(vec![string("a")])),
        ("map", hash(vec![("k", string("v"))])),
    ]);
    assert_eq!(show("[{{list}}][{{map}}][{{{list}}}][{{&map}}]", &data), "[][][][]");
}

#[test]
fn section_over_true_renders_once() {
    let data = hash(vec![("on", Data::Bool(true)), ("x", string("v"))]);
    assert_eq!(show("{{#on}}[{{x}}]{{/on}}", &data), "[v]");
}

#[test]
fn section_over_false_or_a_missing_name_renders_nothing() {
    let data = hash(vec![("off", Data::Bool(false))]);
    assert_eq!(show("a{{#off}}X{{/off}}b{{#missing}}Y{{/missing}}c", &data), "abc");
}

#[test]
fn section_over_a_list_renders_once_for_each_item_in_order() {
    let data = hash(vec![(
        "items",
        Data::Vector(vec![hash(vec![("v", string("a"))]), hash(vec![("v", string("b"))])]),
    )]);
    assert_eq!(render_text("{{#items}}{{v}}{{/items}}", &data, &Partials::new()), Ok(s("ab")));
    assert_eq!(
        render_text("{{#items}}{{.}}{{v}}{{/items}}", &data, &Partials::new()),
        Ok(s("ab"))
    );
    assert_eq!(
        render_text("{{#items}}<{{v}}>{{/items}}", &data, &Partials::new()),
        Ok(s("<a><b>"))
    );
}

#[test]
fn section_over_an_empty_list_renders_nothing() {
    let data = hash(vec![("items", Data::Vector(vec![]))]);
    assert_eq!(render_text("{{#items}}{{v}}{{/items}}", &data, &Partials::new()), Ok(s("")));
    assert_eq!(render_text("[{{#items}}x{{/items}}]", &data, &Partials::new()), Ok(s("[]")));
}

#[test]
fn section_over_a_list_counts_items_of_any_kind() {
    let data = hash(vec![(
        "items",
        Data::Vector(vec![string("a"), Data::Bool(false), Data::Vector(vec![]), hash(vec![])]),
    )]);
    assert_eq!(show("{{#items}}x{{/items}}", &data), "xxxx");
}

#[test]
fn section_over_a_hash_makes_it_the_innermost_context() {
    let data = hash(vec![
        ("name", string("outer")),
        ("person", hash(vec![("name", string("inner"))])),
    ]);
    assert_eq!(show("{{name}} {{#person}}{{name}}{{/person}} {{name}}", &data), "outer inner outer");
}

#[test]
fn names_missing_in_the_inner_context_are_found_further_out() {
    let data = hash(vec![
        ("greeting", string("hi")),
        ("people", Data::Vector(vec![hash(vec![("n", string("a"))]), hash(vec![("n", string("b"))])])),
    ]);
    assert_eq!(show("{{#people}}{{greeting}} {{n}};{{/people}}", &data), "hi a;hi b;");
}

#[test]
fn items_that_are_no_hash_are_passed_over_in_lookup() {
    let data = hash(vec![
        ("x", string("root")),
        ("items", Data::Vector(vec![string("one"), Data::Bool(true)])),
    ]);
    assert_eq!(show("{{#items}}{{x}},{{/items}}", &data), "root,root,");
}

#[test]
fn section_over_a_string_renders_once_without_a_new_context() {
    let data = hash(vec![("title", string("t")), ("empty", string(""))]);
    assert_eq!(show("{{#title}}[{{title}}]{{/title}}", &data), "[t]");
    assert_eq!(show("{{#empty}}[x]{{/empty}}", &data), "[x]");
    assert_eq!(show("{{^title}}no{{/title}}{{^empty}}no{{/empty}}", &data), "");
}

#[test]
fn inverted_section_renders_for_false_missing_and_the_empty_list() {
    let data = hash(vec![("off", Data::Bool(false)), ("none", Data::Vector(vec![]))]);
    assert_eq!(show("{{^off}}a{{/off}}{{^missing}}b{{/missing}}{{^none}}c{{/none}}", &data), "abc");
}

#[test]
fn inverted_section_renders_nothing_for_what_is_there() {
    let data = hash(vec![
        ("on", Data::Bool(true)),
        ("some", Data::Vector(vec![Data::Bool(false)])),
        ("map", hash(vec![])),
    ]);
    assert_eq!(show("[{{^on}}a{{/on}}{{^some}}b{{/some}}{{^map}}c{{/map}}]", &data), "[]");
}

#[test]
fn inverted_section_puts_no_context_on_the_stack() {
    let data = hash(vec![("off", Data::Bool(false)), ("x", string("v"))]);
    assert_eq!(show("{{^off}}{{x}}{{/off}}", &data), "v");
}

#[test]
fn exactly_one_of_section_and_inverted_section_renders() {
    let cases = vec![
        (hash(vec![("n", Data::Bool(true))]), "X", ""),
        (hash(vec![("n", Data::Bool(false))]), "", "X"),
        (hash(vec![]), "", "X"),
        (hash(vec![("n", Data::Vector(vec![]))]), "", "X"),
        (hash(vec![("n", Data::Vector(vec![Data::Bool(true), Data::Bool(true)]))]), "XX", ""),
    ];
    for (data, plain, inverted) in cases {
        assert_eq!(show("{{#n}}X{{/n}}", &data), plain);
        assert_eq!(show("{{^n}}X{{/n}}", &data), inverted);
    }
}

#[test]
fn comments_render_as_nothing() {
    assert_eq!(show("a{{! ignore me }}b", &hash(vec![])), "ab");
    let by_hand = vec![Node::Text(s("a")), Node::Comment, Node::Text(s("b"))];
    assert_eq!(render(&by_hand, &hash(vec![]), &Partials::new()), Ok(s("ab")));
}

#[test]
fn changed_delimiters_render_like_the_first_ones() {
    let data = hash(vec![("x", string("1")), ("y", string("2"))]);
    assert_eq!(show("{{x}}{{=<% %>=}}<%y%>{{x}}<%={{ }}=%>{{y}}", &data), "12{{x}}2");
}

#[test]
fn structural_errors_come_before_any_output() {
    let data = hash(vec![("x", string("v"))]);
    assert_eq!(
        render_text("{{x}}{{#a}}...{{/b}}", &data, &Partials::new()),
        Err(Error::SectionNameMismatch(s("a"), s("b")))
    );
    assert_eq!(
        render_text("{{x}} and more {{#a}}", &data, &Partials::new()),
        Err(Error::UnclosedSection(s("a")))
    );
    assert_eq!(
        render_text("{{x}}{{/a}}", &data, &Partials::new()),
        Err(Error::UnmatchedSectionClose(s("a")))
    );
    assert_eq!(render_text("{{x}}{{", &data, &Partials::new()), Err(Error::MalformedTag));
}

#[test]
fn root_that_is_no_hash_is_refused() {
    let empty = Partials::new();
    assert_eq!(render_text("x", &string("s"), &empty), Err(Error::InvalidRootContext));
    assert_eq!(render_text("x", &Data::Bool(true), &empty), Err(Error::InvalidRootContext));
    assert_eq!(render_text("", &Data::Vector(vec![]), &empty), Err(Error::InvalidRootContext));
    assert_eq!(render(&vec![], &Data::Vector(vec![hash(vec![])]), &empty), Err(Error::InvalidRootContext));
}

#[test]
fn template_errors_are_reported_before_the_root_is_looked_at() {
    let empty = Partials::new();
    assert_eq!(render_text("{{", &Data::Bool(true), &empty), Err(Error::MalformedTag));
    assert_eq!(render_text("{{#a}}", &Data::Bool(true), &empty), Err(Error::UnclosedSection(s("a"))));
}

#[test]
fn partial_renders_in_place() {
    let data = hash(vec![("x", string("v"))]);
    let parts = partials(vec![("p", "<{{x}}>")]);
    assert_eq!(render_text("a{{>p}}b", &data, &parts), Ok(s("a<v>b")));
}

#[test]
fn missing_partial_renders_as_nothing() {
    let data = hash(vec![]);
    assert_eq!(render_text("a{{>nope}}b", &data, &Partials::new()), Ok(s("ab")));
    assert_eq!(render_text("a{{>nope}}b", &data, &partials(vec![("p", "x")])), Ok(s("ab")));
}

#[test]
fn partial_sees_the_stack_of_the_place_that_includes_it() {
    let data = hash(vec![
        ("x", string("outer")),
        ("inner", hash(vec![("x", string("from the section"))])),
    ]);
    let parts = partials(vec![("p", "[{{x}}]")]);
    assert_eq!(
        render_text("{{>p}}{{#inner}}{{>p}}{{/inner}}", &data, &parts),
        Ok(s("[outer][from the section]"))
    );
}

#[test]
fn partial_inside_a_list_section_renders_for_each_item() {
    let data = hash(vec![(
        "rows",
        Data::Vector(vec![hash(vec![("c", string("1"))]), hash(vec![("c", string("2"))])]),
    )]);
    let parts = partials(vec![("row", "<td>{{c}}</td>")]);
    assert_eq!(
        render_text("{{#rows}}{{>row}}{{/rows}}", &data, &parts),
        Ok(s("<td>1</td><td>2</td>"))
    );
}

#[test]
fn partial_may_include_another_partial() {
    let parts = partials(vec![("a", "a({{>b}})"), ("b", "b")]);
    assert_eq!(render_text("{{>a}}", &hash(vec![]), &parts), Ok(s("a(b)")));
}

#[test]
fn later_partial_of_the_same_name_stands() {
    let parts = partials(vec![("p", "first"), ("q", "other"), ("p", "second")]);
    assert_eq!(render_text("{{>p}}", &hash(vec![]), &parts), Ok(s("second")));
}

#[test]
fn recursive_partial_follows_the_data() {
    let leaf = hash(vec![("name", string("c")), ("kids", Data::Vector(vec![]))]);
    let mid = hash(vec![("name", string("b")), ("kids", Data::Vector(vec![leaf]))]);
    let root = hash(vec![("name", string("a")), ("kids", Data::Vector(vec![mid]))]);
    let parts = partials(vec![("node", "{{name}}({{#kids}}{{>node}}{{/kids}})")]);
    assert_eq!(render_text("{{>node}}", &root, &parts), Ok(s("a(b(c()))")));
}

#[test]
fn partial_that_includes_itself_stops_at_the_depth_limit() {
    let parts = partials(vec![("loop", "x{{>loop}}")]);
    let out = render_text("{{>loop}}", &hash(vec![]), &parts).unwrap();
    assert_eq!(out.len(), PARTIAL_DEPTH_LIMIT);
    assert!(out.chars().all(|c| c == 'x'));
}

#[test]
fn later_entry_of_the_same_name_stands_in_lookup() {
    let data = Data::Hash(vec![(s("x"), string("old")), (s("y"), string("y")), (s("x"), string("new"))]);
    assert_eq!(show("{{x}}{{y}}", &data), "newy");
}

#[test]
fn render_takes_nodes_made_by_hand() {
    let nodes = vec![
        Node::Text(s("Hello, ")),
        Node::Section(
            s("people"),
            false,
            vec![Node::Variable(s("name"), true), Node::Text(s(" & "))],
        ),
        Node::Section(s("nobody"), true, vec![Node::Variable(s("raw"), false)]),
    ];
    let data = hash(vec![
        ("raw", string("<end>")),
        ("people", Data::Vector(vec![hash(vec![("name", string("A&B"))]), hash(vec![("name", string("C"))])])),
    ]);
    assert_eq!(render(&nodes, &data, &Partials::new()), Ok(s("Hello, A&amp;B & C & <end>")));
}

#[test]
fn whole_page() {
    let template = "<h1>{{title}}</h1>\n{{! the list }}\n<ul>\n{{#items}}<li>{{name}}{{#last}} (last){{/last}}</li>\n{{/items}}</ul>\n{{^items}}<p>none</p>{{/items}}{{>footer}}";
    let data = hash(vec![
        ("title", string("Fish & Chips")),
        ("year", string("2014")),
        (
            "items",
            Data::Vector(vec![
                hash(vec![("name", string("cod"))]),
                hash(vec![("name", string("<plaice>")), ("last", Data::Bool(true))]),
            ]),
        ),
    ]);
    let parts = partials(vec![("footer", "<footer>{{year}}</footer>")]);
    assert_eq!(
        render_text(template, &data, &parts),
        Ok(s("<h1>Fish &amp; Chips</h1>\n\n<ul>\n<li>cod</li>\n<li>&lt;plaice&gt; (last)</li>\n</ul>\n<footer>2014</footer>"))
    );
}

#[test]
fn render_within_counts_the_partials_entered() {
    let parts = partials(vec![("loop", "x{{>loop}}"), ("once", "[{{>leaf}}]"), ("leaf", "y")]);
    let data = hash(vec![]);
    let looping = nodes_of("{{>loop}}");
    assert_eq!(render_within(&looping, &data, &parts, 0), Ok(s("")));
    assert_eq!(render_within(&looping, &data, &parts, 1), Ok(s("x")));
    assert_eq!(render_within(&looping, &data, &parts, 5), Ok(s("xxxxx")));
    let nested = nodes_of("a{{>once}}b");
    assert_eq!(render_within(&nested, &data, &parts, 0), Ok(s("ab")));
    assert_eq!(render_within(&nested, &data, &parts, 1), Ok(s("a[]b")));
    assert_eq!(render_within(&nested, &data, &parts, 2), Ok(s("a[y]b")));
    assert_eq!(render_within(&nested, &data, &parts, 3), Ok(s("a[y]b")));
    assert_eq!(render(&nested, &data, &parts), Ok(s("a[y]b")));
}

#[test]
fn render_within_refuses_a_root_that_is_no_hash() {
    assert_eq!(
        render_within(&vec![], &Data::Bool(false), &Partials::new(), 3),
        Err(Error::InvalidRootContext)
    );
}

#[test]
fn partials_get_finds_the_nodes_under_a_name() {
    let parts = partials(vec![("p", "a{{x}}"), ("p", "b")]);
    assert_eq!(parts.get("p"), Some(&vec![Node::Text(s("b"))]));
    assert_eq!(parts.get("q"), None);
    assert_eq!(Partials::new().get("p"), None);
}

#[test]
fn delimiter_change_inside_a_section_holds_to_the_end() {
    let data = hash(vec![("s", Data::Bool(true)), ("x", string("1")), ("y", string("2"))]);
    assert_eq!(show("{{#s}}{{x}}{{=<% %>=}}<%y%><%/s%><%x%>{{y}}", &data), "121{{y}}");
}

#[test]
fn section_names_match_after_trimming() {
    let data = hash(vec![("s", Data::Bool(true))]);
    assert_eq!(show("{{# s }}in{{/s}}", &data), "in");
}
