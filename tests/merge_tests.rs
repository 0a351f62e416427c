use json_struct::{merge, Tree};

fn num(n: u64) -> Tree {
    Tree::Number(n.to_string())
}

fn text(s: &str) -> Tree {
    Tree::Str(s.to_string())
}

fn object(fields: Vec<(&str, Tree)>) -> Tree {
    Tree::Object(fields.into_iter().map(|(k, v)| (k.to_string(), v)).collect())
}

fn record(id: u64, name: &str, flag: bool) -> Tree {
    object(vec![("id", num(id)), ("name", text(name)), ("bool", Tree::Bool(flag))])
}

fn extended_record(id: u64, name: &str, flag: bool, ref_id: u64) -> Tree {
    object(vec![
        ("id", num(id)),
        ("name", text(name)),
        ("bool", Tree::Bool(flag)),
        ("ref_id", num(ref_id)),
    ])
}

fn field_count(t: &Tree) -> usize {
    match t {
        Tree::Object(fields) => fields.len(),
        _ => panic!("not an object"),
    }
}

#[test]
fn load_updated_struct() {
    let stored = record(3, "HelloWorld", true);
    let mut tree = extended_record(0, "", false, 6);
    merge(&mut tree, stored);
    assert_eq!(tree.field("id"), Some(&num(3)));
    assert_eq!(tree.field("name"), Some(&text("HelloWorld")));
    assert_eq!(tree.field("bool"), Some(&Tree::Bool(true)));
    assert_eq!(tree.field("ref_id"), Some(&num(6)));
    assert_eq!(field_count(&tree), 4);
}

#[test]
fn load_reduced_struct() {
    let stored = extended_record(10, "changed", false, 6);
    let mut tree = record(0, "", false);
    merge(&mut tree, stored);
    assert_eq!(tree.field("id"), Some(&num(10)));
    assert_eq!(tree.field("name"), Some(&text("changed")));
    assert_eq!(tree.field("bool"), Some(&Tree::Bool(false)));
    // the extra stored field is carried along for the final decoding to drop
    assert_eq!(tree.field("ref_id"), Some(&num(6)));
}

#[test]
fn arrays_are_joined_default_first() {
    let mut tree = object(vec![("tags", Tree::Array(vec![text("a"), text("b")]))]);
    let stored = object(vec![("tags", Tree::Array(vec![text("b"), text("c"), text("a")]))]);
    merge(&mut tree, stored);
    assert_eq!(
        tree.field("tags"),
        Some(&Tree::Array(vec![text("a"), text("b"), text("b"), text("c"), text("a")]))
    );
}

#[test]
fn empty_arrays_join() {
    let mut tree = object(vec![("tags", Tree::Array(vec![]))]);
    let stored = object(vec![("tags", Tree::Array(vec![num(1)]))]);
    merge(&mut tree, stored);
    assert_eq!(tree.field("tags"), Some(&Tree::Array(vec![num(1)])));
}

#[test]
fn array_against_scalar_is_replaced() {
    let mut tree = object(vec![("tags", Tree::Array(vec![text("a")]))]);
    let stored = object(vec![("tags", text("none"))]);
    merge(&mut tree, stored);
    assert_eq!(tree.field("tags"), Some(&text("none")));
}

#[test]
fn incoming_wins_outside_objects() {
    let mut tree = num(1);
    merge(&mut tree, text("x"));
    assert_eq!(tree, text("x"));

    let mut tree = record(1, "a", true);
    merge(&mut tree, Tree::Null);
    assert_eq!(tree, Tree::Null);

    let mut tree = Tree::Null;
    merge(&mut tree, record(1, "a", true));
    assert_eq!(tree, record(1, "a", true));
}

#[test]
fn nested_objects_merge_field_by_field() {
    let mut tree = object(vec![(
        "inner",
        object(vec![("a", num(1)), ("b", num(2)), ("list", Tree::Array(vec![num(0)]))]),
    )]);
    let stored = object(vec![(
        "inner",
        object(vec![("b", num(20)), ("c", num(30)), ("list", Tree::Array(vec![num(9)]))]),
    )]);
    merge(&mut tree, stored);
    let inner = tree.field("inner").unwrap();
    assert_eq!(inner.field("a"), Some(&num(1)));
    assert_eq!(inner.field("b"), Some(&num(20)));
    assert_eq!(inner.field("c"), Some(&num(30)));
    assert_eq!(inner.field("list"), Some(&Tree::Array(vec![num(0), num(9)])));
    assert_eq!(field_count(inner), 4);
}

#[test]
fn merge_with_empty_object_keeps_default() {
    let mut tree = record(7, "seven", true);
    merge(&mut tree, object(vec![]));
    assert_eq!(tree, record(7, "seven", true));
}

#[test]
fn first_field_of_a_name_counts() {
    let mut tree = object(vec![("a", num(1))]);
    let stored = object(vec![("a", num(2)), ("a", num(3))]);
    merge(&mut tree, stored);
    assert_eq!(tree.field("a"), Some(&num(2)));
}

#[test]
fn field_lookup() {
    let t = record(3, "HelloWorld", true);
    assert_eq!(t.field("name"), Some(&text("HelloWorld")));
    assert_eq!(t.field("missing"), None);
    assert_eq!(num(3).field("id"), None);
}

#[test]
fn same_fields_reproduce_stored_record() {
    let mut tree = record(0, "", false);
    merge(&mut tree, record(3, "HelloWorld", true));
    assert_eq!(tree, record(3, "HelloWorld", true));
}
