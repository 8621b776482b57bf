use rustache::data::Data;

fn s(text: &str) -> String {
    String::from(text)
}

fn string(text: &str) -> Data {
    Data::Strng(s(text))
}

fn hash(entries: Vec<(&str, Data)>) -> Data {
    let mut out = Vec::new();
    for (name, value) in entries {
        out.push((s(name), value));
    }
    Data::Hash(out)
}

#[test]
fn strings_are_equal_by_their_text() {
    assert_eq!(string("a"), string("a"));
    assert_ne!(string("a"), string("b"));
    assert_ne!(string("a"), string(""));
    assert_eq!(string(""), string(""));
}

#[test]
fn booleans_are_equal_by_their_value() {
    assert_eq!(Data::Bool(true), Data::Bool(true));
    assert_eq!(Data::Bool(false), Data::Bool(false));
    assert_ne!(Data::Bool(true), Data::Bool(false));
}

#[test]
fn values_of_different_kinds_are_never_equal() {
    assert_ne!(string("true"), Data::Bool(true));
    assert_ne!(Data::Bool(false), string("false"));
    assert_ne!(string(""), Data::Vector(vec![]));
    assert_ne!(Data::Vector(vec![]), hash(vec![]));
    assert_ne!(hash(vec![]), Data::Bool(false));
    assert_ne!(Data::Vector(vec![string("a")]), string("a"));
}

#[test]
fn vectors_are_equal_item_by_item_in_order() {
    let a = Data::Vector(vec![string("x"), Data::Bool(true)]);
    assert_eq!(a, Data::Vector(vec![string("x"), Data::Bool(true)]));
    assert_ne!(a, Data::Vector(vec![Data::Bool(true), string("x")]));
    assert_ne!(a, Data::Vector(vec![string("x")]));
    assert_ne!(a, Data::Vector(vec![string("x"), Data::Bool(true), Data::Bool(true)]));
    assert_ne!(a, Data::Vector(vec![string("x"), Data::Bool(false)]));
    assert_eq!(Data::Vector(vec![]), Data::Vector(vec![]));
}

#[test]
fn hashes_are_equal_whatever_the_order_of_their_entries() {
    let a = hash(vec![("k", string("v")), ("on", Data::Bool(true))]);
    let b = hash(vec![("on", Data::Bool(true)), ("k", string("v"))]);
    assert_eq!(a, b);
    assert_eq!(b, a);
    assert_eq!(hash(vec![]), hash(vec![]));
}

#[test]
fn hashes_differ_by_a_name_or_a_value() {
    let a = hash(vec![("k", string("v")), ("on", Data::Bool(true))]);
    assert_ne!(a, hash(vec![("k", string("v"))]));
    assert_ne!(hash(vec![("k", string("v"))]), a);
    assert_ne!(a, hash(vec![("k", string("w")), ("on", Data::Bool(true))]));
    assert_ne!(a, hash(vec![("k", string("v")), ("off", Data::Bool(true))]));
    assert_ne!(a, hash(vec![]));
}

#[test]
fn last_entry_under_a_name_decides_equality() {
    let twice = hash(vec![("k", string("old")), ("k", string("new"))]);
    assert_eq!(twice, hash(vec![("k", string("new"))]));
    assert_eq!(hash(vec![("k", string("new"))]), twice);
    assert_ne!(twice, hash(vec![("k", string("old"))]));
}

#[test]
fn equality_goes_into_nested_values() {
    let a = hash(vec![("list", Data::Vector(vec![hash(vec![("a", string("1")), ("b", string("2"))])]))]);
    let b = hash(vec![("list", Data::Vector(vec![hash(vec![("b", string("2")), ("a", string("1"))])]))]);
    let c = hash(vec![("list", Data::Vector(vec![hash(vec![("b", string("2")), ("a", string("3"))])]))]);
    assert_eq!(a, b);
    assert_ne!(a, c);
    assert!(a.same(&b));
    assert!(!a.same(&c));
}

#[test]
fn get_finds_the_value_under_a_name() {
    let data = hash(vec![("a", string("1")), ("b", Data::Bool(true)), ("a", string("2"))]);
    assert_eq!(data.get("a"), Some(&string("2")));
    assert_eq!(data.get("b"), Some(&Data::Bool(true)));
    assert_eq!(data.get("c"), None);
    assert_eq!(data.get(""), None);
}

#[test]
fn get_finds_nothing_in_what_is_no_hash() {
    assert_eq!(string("a").get("a"), None);
    assert_eq!(Data::Bool(true).get("a"), None);
    assert_eq!(Data::Vector(vec![hash(vec![("a", string("1"))])]).get("a"), None);
}

#[test]
fn to_text_writes_kind_and_content() {
    assert_eq!(string("abc").to_text(), "String(abc)");
    assert_eq!(string("").to_text(), "String()");
    assert_eq!(Data::Bool(true).to_text(), "Boolean(true)");
    assert_eq!(Data::Bool(false).to_text(), "Boolean(false)");
    assert_eq!(Data::Vector(vec![]).to_text(), "Vector([])");
    assert_eq!(hash(vec![]).to_text(), "Hash({})");
}

#[test]
fn to_text_separates_items_and_entries() {
    assert_eq!(Data::Vector(vec![string("a")]).to_text(), "Vector([String(a)])");
    assert_eq!(
        Data::Vector(vec![string("a"), Data::Bool(false), Data::Vector(vec![])]).to_text(),
        "Vector([String(a), Boolean(false), Vector([])])"
    );
    assert_eq!(hash(vec![("k", string("v"))]).to_text(), "Hash({k: String(v)})");
    assert_eq!(
        hash(vec![("k", string("v")), ("list", Data::Vector(vec![hash(vec![("on", Data::Bool(true))])]))])
            .to_text(),
        "Hash({k: String(v), list: Vector([Hash({on: Boolean(true)})])})"
    );
}
