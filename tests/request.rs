use json_patch_db::patch::Op;
use json_patch_db::request::{parse_patch, parse_uri, Method, RequestError};
use json_patch_db::value::Value;
use json_patch_db::wire::InvalidPatchError;

fn path(p: &[&str]) -> Vec<String> {
    p.iter().map(|x| x.to_string()).collect()
}

#[test]
fn uri_splits_into_document_and_pointer() {
    let t = parse_uri("/docs/a/x").unwrap();
    assert_eq!(t.doc_id, "docs");
    assert_eq!(t.pointer, path(&["a", "x"]));
    let t = parse_uri("/docs").unwrap();
    assert_eq!(t.doc_id, "docs");
    assert!(t.pointer.is_empty());
    assert!(parse_uri("").is_none());
    assert!(parse_uri("docs").is_none());
}

#[test]
fn methods_become_patches() {
    let put = parse_patch(Method::Put, Value::Number("1".to_string())).unwrap();
    assert_eq!(put.ops.len(), 1);
    assert!(matches!(&put.ops[0], Op::Add(p, v) if p.is_empty() && v.equals(&Value::Number("1".to_string()))));
    let del = parse_patch(Method::Delete, Value::Null).unwrap();
    assert!(matches!(&del.ops[0], Op::Remove(p) if p.is_empty()));
    let patch = parse_patch(Method::Patch, Value::Array(vec![])).unwrap();
    assert!(patch.ops.is_empty());
    assert!(matches!(parse_patch(Method::Patch, Value::Null), Err(RequestError::InvalidPatch(InvalidPatchError::MustBeArray))));
    assert!(matches!(parse_patch(Method::Get, Value::Null), Err(RequestError::BadMethod)));
    assert!(matches!(parse_patch(Method::Other, Value::Null), Err(RequestError::BadMethod)));
}
