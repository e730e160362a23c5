use vstd::prelude::*;
use vstd::string::{StringExecFns, StrSliceExecFns};
use crate::value::{Json, Value, views, member_views, lemma_array_view, lemma_object_view};
use crate::patch::{Op, OpModel, Patch, path_view, ops_view, key_index, find_member, lemma_key_index_first};

verus! {

// ---------------------------------------------------------------------------
// Pointers

/// The pieces of `s` between occurrences of `/`, in order.
pub open spec fn split_on_slash(s: Seq<char>) -> Seq<Seq<char>>
    decreases s.len(),
{
    if s.len() == 0 {
        seq![Seq::empty()]
    } else {
        let r = split_on_slash(s.drop_last());
        if s.last() == '/' {
            r.push(Seq::empty())
        } else {
            r.update(r.len() - 1, r.last().push(s.last()))
        }
    }
}

/// The path that a pointer names: its pieces after the leading one.
pub open spec fn pointer_path(s: Seq<char>) -> Seq<Seq<char>> {
    split_on_slash(s).drop_first()
}

/// The pointer of a path: each segment preceded by `/`.
pub open spec fn join_path(p: Seq<Seq<char>>) -> Seq<char>
    decreases p.len(),
{
    if p.len() == 0 {
        Seq::empty()
    } else {
        join_path(p.drop_last()) + seq!['/'] + p.last()
    }
}

/// No segment of the path holds a `/`.
pub open spec fn plain_segments(p: Seq<Seq<char>>) -> bool {
    forall|i: int, j: int| 0 <= i < p.len() && 0 <= j < p[i].len() ==> #[trigger] p[i][j] != '/'
}

pub proof fn lemma_split_nonempty(s: Seq<char>)
    ensures
        split_on_slash(s).len() >= 1,
    decreases s.len(),
{
    if s.len() > 0 {
        lemma_split_nonempty(s.drop_last());
    }
}

proof fn lemma_split_plain_suffix(x: Seq<char>, t: Seq<char>)
    requires
        forall|j: int| 0 <= j < t.len() ==> #[trigger] t[j] != '/',
    ensures
        split_on_slash(x + t) == split_on_slash(x).update(
            split_on_slash(x).len() - 1,
            split_on_slash(x).last() + t,
        ),
    decreases t.len(),
{
    lemma_split_nonempty(x);
    if t.len() == 0 {
        assert(x + t =~= x);
        assert(split_on_slash(x).last() + t =~= split_on_slash(x).last());
        assert(split_on_slash(x).update(split_on_slash(x).len() - 1, split_on_slash(x).last())
            =~= split_on_slash(x));
    } else {
        let t0 = t.drop_last();
        lemma_split_plain_suffix(x, t0);
        assert((x + t).drop_last() =~= x + t0);
        assert((x + t).last() == t.last());
        let r = split_on_slash(x);
        assert((r.last() + t0).push(t.last()) =~= r.last() + t);
        assert(split_on_slash(x + t) =~= r.update(r.len() - 1, r.last() + t));
    }
}

/// Splitting the pointer of a path gives back the path.
pub proof fn lemma_split_join(p: Seq<Seq<char>>)
    requires
        plain_segments(p),
    ensures
        split_on_slash(join_path(p)) == seq![Seq::<char>::empty()] + p,
    decreases p.len(),
{
    if p.len() == 0 {
        assert(seq![Seq::<char>::empty()] + p =~= seq![Seq::<char>::empty()]);
    } else {
        let q = p.drop_last();
        assert(plain_segments(q)) by {
            assert forall|i: int, j: int| 0 <= i < q.len() && 0 <= j < q[i].len() implies #[trigger] q[i][j] != '/' by {
                assert(q[i] == p[i]);
            }
        }
        lemma_split_join(q);
        let x = join_path(q) + seq!['/'];
        let t = p.last();
        assert forall|j: int| 0 <= j < t.len() implies #[trigger] t[j] != '/' by {
            assert(p[p.len() - 1][j] != '/');
        }
        lemma_split_plain_suffix(x, t);
        assert(x.drop_last() =~= join_path(q));
        assert(split_on_slash(x) == split_on_slash(join_path(q)).push(Seq::<char>::empty()));
        assert(join_path(p) == x + t);
        assert(Seq::<char>::empty() + t =~= t);
        assert(split_on_slash(join_path(p)) =~= seq![Seq::<char>::empty()] + p);
    }
}

/// The path of a pointer written for a path is that path.
pub proof fn lemma_pointer_path_join(p: Seq<Seq<char>>)
    requires
        plain_segments(p),
    ensures
        pointer_path(join_path(p)) == p,
{
    lemma_split_join(p);
    assert((seq![Seq::<char>::empty()] + p).drop_first() =~= p);
}

/// The pieces of `s` between occurrences of `/`.
fn split_slash(s: &str) -> (r: Vec<String>)
    ensures
        path_view(r@) == split_on_slash(s@),
{
    let n = s.unicode_len();
    let mut out: Vec<String> = Vec::new();
    let mut start: usize = 0;
    let mut i: usize = 0;
    assert(s@.subrange(0, 0) =~= Seq::<char>::empty());
    assert(path_view(out@).push(s@.subrange(0, 0)) =~= seq![Seq::<char>::empty()]);
    while i < n
        invariant
            n == s@.len(),
            start <= i <= n,
            split_on_slash(s@.subrange(0, i as int)) == path_view(out@).push(s@.subrange(start as int, i as int)),
        decreases n - i,
    {
        let c = s.get_char(i);
        let ghost pre = s@.subrange(0, i as int + 1);
        assert(pre.drop_last() =~= s@.subrange(0, i as int));
        assert(pre.last() == c);
        let ghost before = out@;
        assert(path_view(before).len() == before.len());
        if c == '/' {
            let piece = s.substring_char(start, i).to_owned();
            out.push(piece);
            assert(path_view(out@) =~= path_view(before).push(s@.subrange(start as int, i as int)));
            start = i + 1;
            assert(s@.subrange(start as int, i as int + 1) =~= Seq::<char>::empty());
        } else {
            assert(s@.subrange(start as int, i as int + 1) =~= s@.subrange(start as int, i as int).push(c));
            assert(path_view(before).push(s@.subrange(start as int, i as int)).update(
                path_view(before).len() as int,
                s@.subrange(start as int, i as int).push(c),
            ) =~= path_view(before).push(s@.subrange(start as int, i as int + 1)));
        }
        i = i + 1;
    }
    let ghost before = out@;
    assert(path_view(before).len() == before.len());
    let piece = s.substring_char(start, n).to_owned();
    out.push(piece);
    assert(path_view(out@) =~= path_view(before).push(s@.subrange(start as int, n as int)));
    assert(s@.subrange(0, n as int) =~= s@);
    out
}

/// The path that a pointer such as `/a/0/b` names; the empty pointer names the
/// empty path.
pub fn parse_pointer(s: &str) -> (r: Vec<String>)
    ensures
        path_view(r@) == pointer_path(s@),
{
    let mut parts = split_slash(s);
    proof { lemma_split_nonempty(s@); }
    assert(parts@.len() >= 1);
    let ghost before = parts@;
    parts.remove(0);
    assert(path_view(parts@) =~= path_view(before).drop_first());
    parts
}

/// The pointer of a path.
pub fn write_pointer(p: &Vec<String>) -> (r: String)
    ensures
        r@ == join_path(path_view(p@)),
{
    let ghost pv = path_view(p@);
    let mut out = String::new();
    let mut i: usize = 0;
    assert(pv.subrange(0, 0) =~= Seq::<Seq<char>>::empty());
    while i < p.len()
        invariant
            pv == path_view(p@),
            i <= p@.len(),
            out@ == join_path(pv.subrange(0, i as int)),
        decreases p@.len() - i,
    {
        proof { reveal_strlit("/"); }
        out.append("/");
        out.append(p[i].as_str());
        assert(pv.subrange(0, i as int + 1).drop_last() =~= pv.subrange(0, i as int));
        i = i + 1;
    }
    assert(pv.subrange(0, i as int) =~= pv);
    out
}

// ---------------------------------------------------------------------------
// Operations as values

/// Why a value does not describe an operation.
#[derive(Debug)]
pub enum InvalidOpError {
    /// The `op` member names no known operation.
    UnknownOp(String),
    /// A member that the operation needs is absent.
    MissingProperty(String),
    /// A member that must be a string is not one.
    MustBeString(String),
}

/// Model of `InvalidOpError`.
pub enum OpFault {
    UnknownOp(Seq<char>),
    MissingProperty(Seq<char>),
    MustBeString(Seq<char>),
}

impl View for InvalidOpError {
    type V = OpFault;

    open spec fn view(&self) -> OpFault {
        match self {
            InvalidOpError::UnknownOp(s) => OpFault::UnknownOp(s@),
            InvalidOpError::MissingProperty(s) => OpFault::MissingProperty(s@),
            InvalidOpError::MustBeString(s) => OpFault::MustBeString(s@),
        }
    }
}

/// Why a value does not describe a patch.
#[derive(Debug)]
pub enum InvalidPatchError {
    /// The value is not an array.
    MustBeArray,
    /// The element at this position is not an operation.
    BadOp(usize, InvalidOpError),
}

/// Model of `InvalidPatchError`.
pub enum PatchFault {
    MustBeArray,
    BadOp(nat, OpFault),
}

impl View for InvalidPatchError {
    type V = PatchFault;

    open spec fn view(&self) -> PatchFault {
        match self {
            InvalidPatchError::MustBeArray => PatchFault::MustBeArray,
            InvalidPatchError::BadOp(i, e) => PatchFault::BadOp(*i as nat, e@),
        }
    }
}

/// The member of object `j` under key `k`.
pub open spec fn member(j: Json, k: Seq<char>) -> Option<Json> {
    match j {
        Json::Object(m) => if key_index(m, k) >= 0 {
            Some(m[key_index(m, k)].1)
        } else {
            None
        },
        _ => None,
    }
}

pub open spec fn string_member(j: Json, k: Seq<char>) -> Result<Seq<char>, OpFault> {
    match member(j, k) {
        None => Err(OpFault::MissingProperty(k)),
        Some(Json::Str(s)) => Ok(s),
        Some(_) => Err(OpFault::MustBeString(k)),
    }
}

pub open spec fn path_member(j: Json, k: Seq<char>) -> Result<Seq<Seq<char>>, OpFault> {
    match string_member(j, k) {
        Ok(s) => Ok(pointer_path(s)),
        Err(e) => Err(e),
    }
}

pub open spec fn value_member(j: Json) -> Result<Json, OpFault> {
    match member(j, "value"@) {
        Some(x) => Ok(x),
        None => Err(OpFault::MissingProperty("value"@)),
    }
}

/// The operation that a value describes: an object with a string `op`, a
/// pointer `path`, and a `value` or a pointer `from` as the operation needs.
pub open spec fn op_from_json(j: Json) -> Result<OpModel, OpFault> {
    match string_member(j, "op"@) {
        Err(e) => Err(e),
        Ok(name) => match path_member(j, "path"@) {
            Err(e) => Err(e),
            Ok(path) => if name == "add"@ {
                match value_member(j) {
                    Ok(x) => Ok(OpModel::Add(path, x)),
                    Err(e) => Err(e),
                }
            } else if name == "remove"@ {
                Ok(OpModel::Remove(path))
            } else if name == "replace"@ {
                match value_member(j) {
                    Ok(x) => Ok(OpModel::Replace(path, x)),
                    Err(e) => Err(e),
                }
            } else if name == "test"@ {
                match value_member(j) {
                    Ok(x) => Ok(OpModel::Test(path, x)),
                    Err(e) => Err(e),
                }
            } else if name == "copy"@ {
                match path_member(j, "from"@) {
                    Ok(f) => Ok(OpModel::Copy(path, f)),
                    Err(e) => Err(e),
                }
            } else if name == "move"@ {
                match path_member(j, "from"@) {
                    Ok(f) => Ok(OpModel::Move(path, f)),
                    Err(e) => Err(e),
                }
            } else {
                Err(OpFault::UnknownOp(name))
            },
        },
    }
}

fn lookup<'a>(v: &'a Value, k: &str) -> (r: Option<&'a Value>)
    ensures
        match member(v@, k@) {
            Some(x) => r is Some && r->0@ == x,
            None => r is None,
        },
{
    match v {
        Value::Object(m) => {
            proof { lemma_object_view(*m); }
            let ghost mv = member_views(m@);
            let key = String::from_str(k);
            match find_member(m, &key) {
                Some(i) => {
                    assert(mv[i as int].1 == m@[i as int].1@);
                    Some(&m[i].1)
                },
                None => None,
            }
        },
        _ => None,
    }
}

fn require_string(v: &Value, k: &str) -> (r: Result<String, InvalidOpError>)
    ensures
        match string_member(v@, k@) {
            Ok(s) => r is Ok && r->Ok_0@ == s,
            Err(e) => r is Err && r->Err_0@ == e,
        },
{
    match lookup(v, k) {
        None => Err(InvalidOpError::MissingProperty(String::from_str(k))),
        Some(Value::String(s)) => Ok(s.clone()),
        Some(_) => Err(InvalidOpError::MustBeString(String::from_str(k))),
    }
}

fn require_path(v: &Value, k: &str) -> (r: Result<Vec<String>, InvalidOpError>)
    ensures
        match path_member(v@, k@) {
            Ok(p) => r is Ok && path_view(r->Ok_0@) == p,
            Err(e) => r is Err && r->Err_0@ == e,
        },
{
    match require_string(v, k) {
        Ok(s) => Ok(parse_pointer(s.as_str())),
        Err(e) => Err(e),
    }
}

fn require_value(v: &Value) -> (r: Result<Value, InvalidOpError>)
    ensures
        match value_member(v@) {
            Ok(x) => r is Ok && r->Ok_0@ == x,
            Err(e) => r is Err && r->Err_0@ == e,
        },
{
    match lookup(v, "value") {
        Some(x) => Ok(x.deep_copy()),
        None => Err(InvalidOpError::MissingProperty(String::from_str("value"))),
    }
}

fn op_from_ref(v: &Value) -> (r: Result<Op, InvalidOpError>)
    ensures
        match op_from_json(v@) {
            Ok(op) => r is Ok && r->Ok_0@ == op,
            Err(e) => r is Err && r->Err_0@ == e,
        },
{
    let name = match require_string(v, "op") {
        Ok(s) => s,
        Err(e) => return Err(e),
    };
    let path = match require_path(v, "path") {
        Ok(p) => p,
        Err(e) => return Err(e),
    };
    if name == String::from_str("add") {
        match require_value(v) {
            Ok(x) => Ok(Op::Add(path, x)),
            Err(e) => Err(e),
        }
    } else if name == String::from_str("remove") {
        Ok(Op::Remove(path))
    } else if name == String::from_str("replace") {
        match require_value(v) {
            Ok(x) => Ok(Op::Replace(path, x)),
            Err(e) => Err(e),
        }
    } else if name == String::from_str("test") {
        match require_value(v) {
            Ok(x) => Ok(Op::Test(path, x)),
            Err(e) => Err(e),
        }
    } else if name == String::from_str("copy") {
        match require_path(v, "from") {
            Ok(f) => Ok(Op::Copy(path, f)),
            Err(e) => Err(e),
        }
    } else if name == String::from_str("move") {
        match require_path(v, "from") {
            Ok(f) => Ok(Op::Move(path, f)),
            Err(e) => Err(e),
        }
    } else {
        Err(InvalidOpError::UnknownOp(name))
    }
}

impl Op {
    /// The operation that a value describes.
    pub fn from_value(v: Value) -> (r: Result<Op, InvalidOpError>)
        ensures
            match op_from_json(v@) {
                Ok(op) => r is Ok && r->Ok_0@ == op,
                Err(e) => r is Err && r->Err_0@ == e,
            },
    {
        op_from_ref(&v)
    }
}

/// The operations that a list of values describes, or the position of the
/// first one that describes none and why.
pub open spec fn ops_from_json(a: Seq<Json>) -> Result<Seq<OpModel>, (nat, OpFault)>
    decreases a.len(),
{
    if a.len() == 0 {
        Ok(Seq::empty())
    } else {
        match ops_from_json(a.drop_last()) {
            Err(e) => Err(e),
            Ok(ops) => match op_from_json(a.last()) {
                Ok(op) => Ok(ops.push(op)),
                Err(e) => Err(((a.len() - 1) as nat, e)),
            },
        }
    }
}

proof fn lemma_ops_from_json_fails_early(a: Seq<Json>, k: int)
    requires
        0 <= k <= a.len(),
        ops_from_json(a.subrange(0, k)) is Err,
    ensures
        ops_from_json(a) == ops_from_json(a.subrange(0, k)),
    decreases a.len() - k,
{
    if k == a.len() {
        assert(a.subrange(0, k) =~= a);
    } else {
        assert(a.subrange(0, k + 1).drop_last() =~= a.subrange(0, k));
        lemma_ops_from_json_fails_early(a, k + 1);
    }
}

/// The patch that a value describes: an array of operations.
pub open spec fn patch_from_json(j: Json) -> Result<Seq<OpModel>, PatchFault> {
    match j {
        Json::Array(a) => match ops_from_json(a) {
            Ok(ops) => Ok(ops),
            Err((i, e)) => Err(PatchFault::BadOp(i, e)),
        },
        _ => Err(PatchFault::MustBeArray),
    }
}

impl Patch {
    /// The patch that a value describes.
    pub fn from_value(v: Value) -> (r: Result<Patch, InvalidPatchError>)
        ensures
            match patch_from_json(v@) {
                Ok(ops) => r is Ok && r->Ok_0@ == ops,
                Err(e) => r is Err && r->Err_0@ == e,
            },
    {
        match v {
            Value::Array(a) => Patch::from_array(a),
            _ => Err(InvalidPatchError::MustBeArray),
        }
    }

    fn from_array(a: Vec<Value>) -> (r: Result<Patch, InvalidPatchError>)
        ensures
            match patch_from_json(Value::Array(a)@) {
                Ok(ops) => r is Ok && r->Ok_0@ == ops,
                Err(e) => r is Err && r->Err_0@ == e,
            },
    {
        let ghost vv = Value::Array(a)@;
        proof { lemma_array_view(a); }
        let ghost av = views(a@);
        assert(vv == Json::Array(av));
        let mut ops: Vec<Op> = Vec::new();
        let mut i: usize = 0;
        assert(av.subrange(0, 0) =~= Seq::<Json>::empty());
        assert(ops_view(ops@) =~= Seq::<OpModel>::empty());
        while i < a.len()
            invariant
                av == views(a@),
                vv == Json::Array(av),
                vv == Value::Array(a)@,
                i <= a@.len(),
                ops_from_json(av.subrange(0, i as int)) == Ok::<Seq<OpModel>, (nat, OpFault)>(ops_view(ops@)),
            decreases a@.len() - i,
        {
            assert(av.subrange(0, i as int + 1).drop_last() =~= av.subrange(0, i as int));
            assert(av[i as int] == a@[i as int]@);
            match op_from_ref(&a[i]) {
                Ok(op) => {
                    let ghost before = ops@;
                    ops.push(op);
                    assert(ops_view(ops@) =~= ops_view(before).push(op@));
                },
                Err(e) => {
                    proof {
                        lemma_ops_from_json_fails_early(av, i as int + 1);
                        assert(ops_from_json(av) == Err::<Seq<OpModel>, (nat, OpFault)>((i as nat, e@)));
                        assert(patch_from_json(vv) == Err::<Seq<OpModel>, PatchFault>(PatchFault::BadOp(i as nat, e@)));
                    }
                    return Err(InvalidPatchError::BadOp(i, e));
                },
            }
            i = i + 1;
        }
        assert(av.subrange(0, i as int) =~= av);
        Ok(Patch { ops })
    }

    /// The value that describes this patch.
    pub fn to_value(&self) -> (r: Value)
        ensures
            r@ == patch_to_json(self@),
    {
        let mut out: Vec<Value> = Vec::new();
        let mut i: usize = 0;
        while i < self.ops.len()
            invariant
                i <= self.ops@.len(),
                views(out@) =~= patch_to_json(self@)->Array_0.subrange(0, i as int),
            decreases self.ops@.len() - i,
        {
            let v = self.ops[i].to_value();
            let ghost before = out@;
            out.push(v);
            assert(views(out@) =~= views(before).push(v@));
            assert(patch_to_json(self@)->Array_0.subrange(0, i as int + 1) =~= patch_to_json(self@)->Array_0.subrange(0, i as int).push(v@));
            i = i + 1;
        }
        assert(patch_to_json(self@)->Array_0.subrange(0, i as int) =~= patch_to_json(self@)->Array_0);
        proof { lemma_array_view(out); }
        Value::Array(out)
    }
}

/// The value that describes an operation.
pub open spec fn op_to_json(op: OpModel) -> Json {
    match op {
        OpModel::Add(p, x) => Json::Object(seq![("op"@, Json::Str("add"@)), ("path"@, Json::Str(join_path(p))), ("value"@, x)]),
        OpModel::Remove(p) => Json::Object(seq![("op"@, Json::Str("remove"@)), ("path"@, Json::Str(join_path(p)))]),
        OpModel::Replace(p, x) => Json::Object(seq![("op"@, Json::Str("replace"@)), ("path"@, Json::Str(join_path(p))), ("value"@, x)]),
        OpModel::Copy(p, f) => Json::Object(seq![("op"@, Json::Str("copy"@)), ("path"@, Json::Str(join_path(p))), ("from"@, Json::Str(join_path(f)))]),
        OpModel::Move(p, f) => Json::Object(seq![("op"@, Json::Str("move"@)), ("path"@, Json::Str(join_path(p))), ("from"@, Json::Str(join_path(f)))]),
        OpModel::Test(p, x) => Json::Object(seq![("op"@, Json::Str("test"@)), ("path"@, Json::Str(join_path(p))), ("value"@, x)]),
    }
}

/// The value that describes a list of operations.
pub open spec fn patch_to_json(ops: Seq<OpModel>) -> Json {
    Json::Array(Seq::new(ops.len(), |i: int| op_to_json(ops[i])))
}

fn string_value(s: &str) -> (r: Value)
    ensures
        r@ == Json::Str(s@),
{
    Value::String(String::from_str(s))
}

fn member_of(k: &str, v: Value) -> (r: (String, Value))
    ensures
        r.0@ == k@,
        r.1 == v,
{
    (String::from_str(k), v)
}

impl Op {
    /// The value that describes this operation: an object with `op`, `path`,
    /// and `value` or `from`.
    pub fn to_value(&self) -> (r: Value)
        ensures
            r@ == op_to_json(self@),
    {
        let mut m: Vec<(String, Value)> = Vec::new();
        match self {
            Op::Add(p, x) => {
                m.push(member_of("op", string_value("add")));
                m.push(member_of("path", Value::String(write_pointer(p))));
                m.push(member_of("value", x.deep_copy()));
            },
            Op::Remove(p) => {
                m.push(member_of("op", string_value("remove")));
                m.push(member_of("path", Value::String(write_pointer(p))));
            },
            Op::Replace(p, x) => {
                m.push(member_of("op", string_value("replace")));
                m.push(member_of("path", Value::String(write_pointer(p))));
                m.push(member_of("value", x.deep_copy()));
            },
            Op::Copy(p, f) => {
                m.push(member_of("op", string_value("copy")));
                m.push(member_of("path", Value::String(write_pointer(p))));
                m.push(member_of("from", Value::String(write_pointer(f))));
            },
            Op::Move(p, f) => {
                m.push(member_of("op", string_value("move")));
                m.push(member_of("path", Value::String(write_pointer(p))));
                m.push(member_of("from", Value::String(write_pointer(f))));
            },
            Op::Test(p, x) => {
                m.push(member_of("op", string_value("test")));
                m.push(member_of("path", Value::String(write_pointer(p))));
                m.push(member_of("value", x.deep_copy()));
            },
        }
        proof { lemma_object_view(m); }
        assert(member_views(m@) =~= op_to_json(self@)->Object_0);
        Value::Object(m)
    }
}

/// The paths of an operation hold no `/` inside a segment.
pub open spec fn op_paths_plain(op: OpModel) -> bool {
    match op {
        OpModel::Add(p, _) => plain_segments(p),
        OpModel::Remove(p) => plain_segments(p),
        OpModel::Replace(p, _) => plain_segments(p),
        OpModel::Test(p, _) => plain_segments(p),
        OpModel::Copy(p, f) => plain_segments(p) && plain_segments(f),
        OpModel::Move(p, f) => plain_segments(p) && plain_segments(f),
    }
}

/// Reading back the value that describes an operation gives the same
/// operation: same kind, same path, same value or `from`.
pub proof fn lemma_op_round_trip(op: OpModel)
    requires
        op_paths_plain(op),
    ensures
        op_from_json(op_to_json(op)) == Ok::<OpModel, OpFault>(op),
{
    reveal_strlit("op");
    reveal_strlit("path");
    reveal_strlit("value");
    reveal_strlit("from");
    reveal_strlit("add");
    reveal_strlit("remove");
    reveal_strlit("replace");
    reveal_strlit("test");
    reveal_strlit("copy");
    reveal_strlit("move");
    assert("op"@.len() == 2 && "path"@.len() == 4 && "value"@.len() == 5 && "from"@.len() == 4);
    assert("from"@[0] != "path"@[0]);
    assert("add"@.len() == 3 && "remove"@.len() == 6 && "replace"@.len() == 7);
    assert("test"@[0] != "copy"@[0] && "test"@[0] != "move"@[0] && "copy"@[0] != "move"@[0]);
    assert("test"@.len() == 4 && "copy"@.len() == 4 && "move"@.len() == 4);
    let m = op_to_json(op)->Object_0;
    lemma_key_index_first(m, "op"@, 0);
    lemma_key_index_first(m, "path"@, 1);
    match op {
        OpModel::Add(p, x) => {
            lemma_pointer_path_join(p);
            lemma_key_index_first(m, "value"@, 2);
        },
        OpModel::Remove(p) => {
            lemma_pointer_path_join(p);
        },
        OpModel::Replace(p, x) => {
            lemma_pointer_path_join(p);
            lemma_key_index_first(m, "value"@, 2);
        },
        OpModel::Test(p, x) => {
            lemma_pointer_path_join(p);
            lemma_key_index_first(m, "value"@, 2);
        },
        OpModel::Copy(p, f) => {
            lemma_pointer_path_join(p);
            lemma_pointer_path_join(f);
            lemma_key_index_first(m, "from"@, 2);
        },
        OpModel::Move(p, f) => {
            lemma_pointer_path_join(p);
            lemma_pointer_path_join(f);
            lemma_key_index_first(m, "from"@, 2);
        },
    }
}

/// Reading back the value that describes a patch gives the same operations,
/// in the same order, wherever no path segment holds a `/`.
pub proof fn lemma_patch_round_trip(ops: Seq<OpModel>)
    requires
        forall|i: int| 0 <= i < ops.len() ==> op_paths_plain(#[trigger] ops[i]),
    ensures
        patch_from_json(patch_to_json(ops)) == Ok::<Seq<OpModel>, PatchFault>(ops),
    decreases ops.len(),
{
    let a = patch_to_json(ops)->Array_0;
    if ops.len() > 0 {
        let q = ops.drop_last();
        assert forall|i: int| 0 <= i < q.len() implies op_paths_plain(#[trigger] q[i]) by {
            assert(q[i] == ops[i]);
        }
        lemma_patch_round_trip(q);
        assert(a.drop_last() =~= patch_to_json(q)->Array_0);
        lemma_op_round_trip(ops.last());
        assert(a.last() == op_to_json(ops.last()));
        assert(q.push(ops.last()) =~= ops);
    } else {
        assert(ops =~= Seq::<OpModel>::empty());
    }
}

/// The operations' paths hold no `/` inside a segment.
pub open spec fn ops_plain(ops: Seq<OpModel>) -> bool {
    forall|i: int| 0 <= i < ops.len() ==> op_paths_plain(#[trigger] ops[i])
}

proof fn lemma_single_piece_iff_plain(s: Seq<char>)
    ensures
        (split_on_slash(s).len() == 1) == (forall|j: int| 0 <= j < s.len() ==> #[trigger] s[j] != '/'),
    decreases s.len(),
{
    if s.len() > 0 {
        let t = s.drop_last();
        lemma_split_nonempty(t);
        lemma_single_piece_iff_plain(t);
        if s.last() == '/' {
            assert(s[s.len() - 1] == '/');
        } else {
            assert forall|j: int| 0 <= j < t.len() implies #[trigger] t[j] == s[j] by {}
            if !(forall|j: int| 0 <= j < s.len() ==> #[trigger] s[j] != '/') {
                let j = choose|j: int| 0 <= j < s.len() && s[j] == '/';
                assert(t[j] == '/');
            }
        }
    }
}

/// Whether a segment holds no `/`.
fn segment_is_plain(s: &String) -> (r: bool)
    ensures
        r == (forall|j: int| 0 <= j < s@.len() ==> #[trigger] s@[j] != '/'),
{
    proof { lemma_single_piece_iff_plain(s@); }
    let parts = split_slash(s.as_str());
    assert(path_view(parts@).len() == parts@.len());
    parts.len() == 1
}

/// Whether no segment of a path holds a `/`.
pub fn path_is_plain(p: &Vec<String>) -> (r: bool)
    ensures
        r == plain_segments(path_view(p@)),
{
    let ghost pv = path_view(p@);
    let mut i: usize = 0;
    while i < p.len()
        invariant
            pv == path_view(p@),
            i <= p@.len(),
            forall|k: int, j: int| 0 <= k < i && 0 <= j < pv[k].len() ==> #[trigger] pv[k][j] != '/',
        decreases p@.len() - i,
    {
        if !segment_is_plain(&p[i]) {
            proof {
                let j = choose|j: int| 0 <= j < p@[i as int]@.len() && p@[i as int]@[j] == '/';
                assert(pv[i as int][j] == '/');
            }
            return false;
        }
        assert(pv[i as int] == p@[i as int]@);
        i = i + 1;
    }
    true
}

fn op_is_plain(op: &Op) -> (r: bool)
    ensures
        r == op_paths_plain(op@),
{
    match op {
        Op::Add(p, _) => path_is_plain(p),
        Op::Remove(p) => path_is_plain(p),
        Op::Replace(p, _) => path_is_plain(p),
        Op::Test(p, _) => path_is_plain(p),
        Op::Copy(p, f) => path_is_plain(p) && path_is_plain(f),
        Op::Move(p, f) => path_is_plain(p) && path_is_plain(f),
    }
}

/// Whether every path of the patch can be written as a pointer and read back.
pub fn patch_is_plain(patch: &Patch) -> (r: bool)
    ensures
        r == ops_plain(patch@),
{
    let mut i: usize = 0;
    while i < patch.ops.len()
        invariant
            i <= patch.ops@.len(),
            forall|k: int| 0 <= k < i ==> op_paths_plain(#[trigger] patch@[k]),
        decreases patch.ops@.len() - i,
    {
        if !op_is_plain(&patch.ops[i]) {
            assert(!op_paths_plain(patch@[i as int]));
            return false;
        }
        i = i + 1;
    }
    true
}

} // verus!
