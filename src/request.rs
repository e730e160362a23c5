use vstd::prelude::*;
use crate::value::Value;
use crate::patch::{Op, OpModel, Patch, path_view};
use crate::wire::{InvalidPatchError, parse_pointer, patch_from_json, pointer_path};

verus! {

/// The request methods that the store distinguishes.
#[derive(Clone, Copy, PartialEq, Eq, Structural, Debug)]
pub enum Method {
    Get,
    Put,
    Patch,
    Delete,
    Other,
}

/// A request path split into a document id and a pointer inside it.
#[derive(Debug)]
pub struct GlobalJsonPointer {
    pub doc_id: String,
    pub pointer: Vec<String>,
}

/// Why a request does not describe a patch.
#[derive(Debug)]
pub enum RequestError {
    /// The method does not change a document.
    BadMethod,
    /// The body of a PATCH does not describe a patch.
    InvalidPatch(InvalidPatchError),
}

/// Splits a request path `/{doc_id}/{pointer...}`: its first segment is the
/// document id, the others the pointer. A path without `/` names no document.
pub fn parse_uri(path: &str) -> (r: Option<GlobalJsonPointer>)
    ensures
        pointer_path(path@).len() == 0 ==> r is None,
        pointer_path(path@).len() > 0 ==> r is Some && r->0.doc_id@ == pointer_path(path@)[0]
            && path_view(r->0.pointer@) == pointer_path(path@).drop_first(),
{
    let mut parts = parse_pointer(path);
    if parts.len() == 0 {
        return None;
    }
    let ghost before = parts@;
    let doc_id = parts.remove(0);
    assert(path_view(parts@) =~= path_view(before).drop_first());
    Some(GlobalJsonPointer { doc_id, pointer: parts })
}

/// The patch that a request carries: PUT adds its body at the scope, DELETE
/// removes the scope, PATCH carries a patch in its body.
pub fn parse_patch(method: Method, body: Value) -> (r: Result<Patch, RequestError>)
    ensures
        method == Method::Put ==> r is Ok && r->Ok_0@ == seq![OpModel::Add(Seq::empty(), body@)],
        method == Method::Delete ==> r is Ok && r->Ok_0@ == seq![OpModel::Remove(Seq::empty())],
        method == Method::Patch ==> match patch_from_json(body@) {
            Ok(ops) => r is Ok && r->Ok_0@ == ops,
            Err(e) => r is Err && r->Err_0 is InvalidPatch && r->Err_0->InvalidPatch_0@ == e,
        },
        method == Method::Get || method == Method::Other ==> r is Err && r->Err_0 is BadMethod,
{
    match method {
        Method::Put => {
            let mut ops: Vec<Op> = Vec::new();
            ops.push(Op::Add(Vec::new(), body));
            let p = Patch { ops };
            assert(path_view(Seq::<String>::empty()) =~= Seq::<Seq<char>>::empty());
            assert(p@ =~= seq![OpModel::Add(Seq::empty(), body@)]);
            Ok(p)
        },
        Method::Delete => {
            let mut ops: Vec<Op> = Vec::new();
            ops.push(Op::Remove(Vec::new()));
            let p = Patch { ops };
            assert(path_view(Seq::<String>::empty()) =~= Seq::<Seq<char>>::empty());
            assert(p@ =~= seq![OpModel::Remove(Seq::empty())]);
            Ok(p)
        },
        Method::Patch => match Patch::from_value(body) {
            Ok(p) => Ok(p),
            Err(e) => Err(RequestError::InvalidPatch(e)),
        },
        _ => Err(RequestError::BadMethod),
    }
}

} // verus!
