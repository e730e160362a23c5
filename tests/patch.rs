use json_patch_db::patch::{apply, apply_op, deep_equal, locate, string_to_index, Op, Patch, PatchError};
use json_patch_db::value::Value;

fn s(x: &str) -> String {
    x.to_string()
}

fn num(x: &str) -> Value {
    Value::Number(s(x))
}

fn text(x: &str) -> Value {
    Value::String(s(x))
}

fn obj(members: Vec<(&str, Value)>) -> Value {
    Value::Object(members.into_iter().map(|(k, v)| (s(k), v)).collect())
}

fn op(members: Vec<(&str, Value)>) -> Value {
    obj(members)
}

fn patch_of(ops: Vec<Value>) -> Patch {
    Patch::from_value(Value::Array(ops)).unwrap()
}

fn path(p: &[&str]) -> Vec<String> {
    p.iter().map(|x| x.to_string()).collect()
}

fn at<'a>(v: &'a Value, p: &[&str]) -> Option<&'a Value> {
    locate(v, &path(p))
}

#[test]
fn add_in_object() {
    let root = obj(vec![]);
    let patch = patch_of(vec![op(vec![("op", text("add")), ("path", text("/hi")), ("value", num("12"))])]);
    let root = apply(&patch, &root).unwrap();
    assert!(at(&root, &["hi"]).unwrap().equals(&num("12")));
}

#[test]
fn add_nested_value() {
    let root = obj(vec![("o", obj(vec![]))]);
    let patch = patch_of(vec![op(vec![("op", text("add")), ("path", text("/o/cool")), ("value", text("beans"))])]);
    let root = apply(&patch, &root).unwrap();
    assert!(at(&root, &["o", "cool"]).unwrap().equals(&text("beans")));
}

#[test]
fn add_and_remove() {
    let root = obj(vec![]);
    let patch = patch_of(vec![
        op(vec![("op", text("add")), ("path", text("/one")), ("value", num("1"))]),
        op(vec![("op", text("add")), ("path", text("/two")), ("value", num("2"))]),
        op(vec![("op", text("remove")), ("path", text("/one"))]),
    ]);
    let root = apply(&patch, &root).unwrap();
    assert!(at(&root, &["one"]).is_none());
    assert!(at(&root, &["two"]).unwrap().equals(&num("2")));
}

#[test]
fn add_fails_without_parent() {
    let root = Value::Null;
    let patch = patch_of(vec![op(vec![("op", text("add")), ("path", text("/yo")), ("value", num("1"))])]);
    assert!(matches!(apply(&patch, &root), Err(PatchError::NotContainer)));
}

#[test]
fn add_with_empty_path_replaces_root() {
    let root = Value::Null;
    let patch = patch_of(vec![op(vec![("op", text("add")), ("path", text("")), ("value", num("12"))])]);
    let root = apply(&patch, &root).unwrap();
    assert!(root.equals(&num("12")));
}

#[test]
fn index_rule() {
    assert_eq!(string_to_index("-", 3, true), Ok(3));
    assert_eq!(string_to_index("-", 3, false), Err(PatchError::MalformedIndex));
    assert_eq!(string_to_index("2", 3, false), Ok(2));
    assert_eq!(string_to_index("3", 3, false), Err(PatchError::IndexOutOfRange));
    assert_eq!(string_to_index("3", 3, true), Ok(3));
    assert_eq!(string_to_index("4", 3, true), Err(PatchError::IndexOutOfRange));
    assert_eq!(string_to_index("007", 10, false), Ok(7));
    assert_eq!(string_to_index("", 3, true), Err(PatchError::MalformedIndex));
    assert_eq!(string_to_index("-1", 3, true), Err(PatchError::MalformedIndex));
    assert_eq!(string_to_index("+1", 3, true), Err(PatchError::MalformedIndex));
    assert_eq!(string_to_index("x", 3, true), Err(PatchError::MalformedIndex));
    assert_eq!(string_to_index("é", 3, true), Err(PatchError::MalformedIndex));
    assert_eq!(string_to_index("99999999999999999999999", 3, true), Err(PatchError::IndexOutOfRange));
    assert_eq!(string_to_index("18446744073709551615", usize::MAX, false), Err(PatchError::IndexOutOfRange));
    assert_eq!(string_to_index("18446744073709551615", usize::MAX, true), Ok(usize::MAX));
}

#[test]
fn dash_appends_and_only_inserts() {
    let root = Value::Array(vec![num("1"), num("2")]);
    let mut v = root.deep_copy();
    apply_op(&Op::Add(path(&["-"]), num("3")), &mut v).unwrap();
    assert!(v.equals(&Value::Array(vec![num("1"), num("2"), num("3")])));
    let mut w = root.deep_copy();
    assert_eq!(apply_op(&Op::Replace(path(&["-"]), num("3")), &mut w), Err(PatchError::MalformedIndex));
    assert!(w.equals(&root));
    assert_eq!(apply_op(&Op::Remove(path(&["-"])), &mut w), Err(PatchError::MalformedIndex));
    assert!(w.equals(&root));
}

#[test]
fn array_insert_shifts_and_remove_compacts() {
    let mut v = Value::Array(vec![num("1"), num("3")]);
    apply_op(&Op::Add(path(&["1"]), num("2")), &mut v).unwrap();
    assert!(v.equals(&Value::Array(vec![num("1"), num("2"), num("3")])));
    apply_op(&Op::Remove(path(&["0"])), &mut v).unwrap();
    assert!(v.equals(&Value::Array(vec![num("2"), num("3")])));
    apply_op(&Op::Replace(path(&["1"]), num("9")), &mut v).unwrap();
    assert!(v.equals(&Value::Array(vec![num("2"), num("9")])));
    assert_eq!(apply_op(&Op::Add(path(&["5"]), num("0")), &mut v), Err(PatchError::IndexOutOfRange));
    assert_eq!(apply_op(&Op::Remove(path(&["2"])), &mut v), Err(PatchError::IndexOutOfRange));
}

#[test]
fn object_keys_keep_insertion_order() {
    let mut v = obj(vec![("b", num("1")), ("a", num("2"))]);
    apply_op(&Op::Add(path(&["b"]), num("5")), &mut v).unwrap();
    apply_op(&Op::Add(path(&["c"]), num("6")), &mut v).unwrap();
    assert!(v.equals(&obj(vec![("b", num("5")), ("a", num("2")), ("c", num("6"))])));
    apply_op(&Op::Remove(path(&["b"])), &mut v).unwrap();
    assert!(v.equals(&obj(vec![("a", num("2")), ("c", num("6"))])));
}

#[test]
fn replace_and_remove_need_existing_member() {
    let mut v = obj(vec![("a", num("1"))]);
    assert_eq!(apply_op(&Op::Replace(path(&["b"]), num("2")), &mut v), Err(PatchError::PathNotFound));
    assert_eq!(apply_op(&Op::Remove(path(&["b"])), &mut v), Err(PatchError::PathNotFound));
    assert_eq!(apply_op(&Op::Remove(path(&[])), &mut v), Err(PatchError::PathNotFound));
    assert_eq!(apply_op(&Op::Add(path(&["x", "y"]), num("2")), &mut v), Err(PatchError::PathNotFound));
    assert_eq!(apply_op(&Op::Add(path(&["a", "y"]), num("2")), &mut v), Err(PatchError::NotContainer));
    assert!(v.equals(&obj(vec![("a", num("1"))])));
    apply_op(&Op::Replace(path(&["a"]), num("2")), &mut v).unwrap();
    assert!(v.equals(&obj(vec![("a", num("2"))])));
}

#[test]
fn test_op_compares_deeply() {
    let mut v = obj(vec![("a", Value::Array(vec![num("1"), Value::Bool(true)]))]);
    assert_eq!(apply_op(&Op::Test(path(&["a"]), Value::Array(vec![num("1"), Value::Bool(true)])), &mut v), Ok(()));
    assert_eq!(apply_op(&Op::Test(path(&["a"]), Value::Array(vec![num("1")])), &mut v), Err(PatchError::TestMismatch));
    assert_eq!(apply_op(&Op::Test(path(&["b"]), Value::Null), &mut v), Err(PatchError::PathNotFound));
}

#[test]
fn move_and_copy() {
    let mut v = obj(vec![("a", obj(vec![("x", num("1"))])), ("b", obj(vec![]))]);
    apply_op(&Op::Copy(path(&["b", "y"]), path(&["a", "x"])), &mut v).unwrap();
    assert!(v.equals(&obj(vec![("a", obj(vec![("x", num("1"))])), ("b", obj(vec![("y", num("1"))]))])));
    apply_op(&Op::Move(path(&["b", "z"]), path(&["a", "x"])), &mut v).unwrap();
    assert!(v.equals(&obj(vec![("a", obj(vec![])), ("b", obj(vec![("y", num("1")), ("z", num("1"))]))])));
    assert_eq!(apply_op(&Op::Copy(path(&["c"]), path(&["nope"])), &mut v), Err(PatchError::PathNotFound));
    assert_eq!(apply_op(&Op::Move(path(&["c"]), path(&[])), &mut v), Err(PatchError::PathNotFound));
}

#[test]
fn failing_patch_leaves_value_alone() {
    let root = obj(vec![("a", num("1"))]);
    let patch = patch_of(vec![
        op(vec![("op", text("add")), ("path", text("/b")), ("value", num("2"))]),
        op(vec![("op", text("remove")), ("path", text("/zzz"))]),
    ]);
    assert_eq!(apply(&patch, &root).unwrap_err(), PatchError::PathNotFound);
    assert!(root.equals(&obj(vec![("a", num("1"))])));
}

#[test]
fn test_op_ignores_member_order() {
    let stored = obj(vec![("a", num("1")), ("b", obj(vec![("x", Value::Null), ("y", text("t"))]))]);
    let mut v = obj(vec![("doc", stored.deep_copy())]);
    let reordered = obj(vec![("b", obj(vec![("y", text("t")), ("x", Value::Null)])), ("a", num("1"))]);
    assert_eq!(apply_op(&Op::Test(path(&["doc"]), reordered.deep_copy()), &mut v), Ok(()));
    assert!(deep_equal(&stored, &reordered));
    assert!(!stored.equals(&reordered));
    let missing = obj(vec![("a", num("1")), ("c", num("2"))]);
    assert!(!deep_equal(&stored, &missing));
    let shorter = obj(vec![("a", num("1"))]);
    assert!(!deep_equal(&stored, &shorter));
    assert!(!deep_equal(&Value::Array(vec![num("1"), num("2")]), &Value::Array(vec![num("2"), num("1")])));
    assert!(deep_equal(&Value::Array(vec![shorter.deep_copy()]), &Value::Array(vec![shorter.deep_copy()])));
    assert!(!deep_equal(&num("1"), &text("1")));
}

#[test]
fn equality_with_repeated_keys_is_not_one_sided() {
    let twice = obj(vec![("a", num("1")), ("a", num("1"))]);
    let other = obj(vec![("a", num("1")), ("b", num("2"))]);
    assert!(!deep_equal(&twice, &other));
    assert!(!deep_equal(&other, &twice));
}

#[test]
fn dash_appends_under_nested_path() {
    let mut v = obj(vec![("o", obj(vec![("list", Value::Array(vec![num("1")]))]))]);
    apply_op(&Op::Add(path(&["o", "list", "-"]), num("2")), &mut v).unwrap();
    assert!(at(&v, &["o", "list"]).unwrap().equals(&Value::Array(vec![num("1"), num("2")])));
    let before = v.deep_copy();
    assert_eq!(apply_op(&Op::Replace(path(&["o", "list", "-"]), num("3")), &mut v), Err(PatchError::MalformedIndex));
    assert_eq!(apply_op(&Op::Remove(path(&["o", "list", "-"])), &mut v), Err(PatchError::MalformedIndex));
    assert!(v.equals(&before));
}
