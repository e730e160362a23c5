use vstd::prelude::*;
use vstd::string::is_ascii;
use crate::value::{Json, Value, views, member_views, lemma_array_view, lemma_object_view};

verus! {

/// Why an operation could not be applied.
#[derive(Clone, Copy, PartialEq, Eq, Structural, Debug)]
pub enum PatchError {
    /// A location named by a path does not exist.
    PathNotFound,
    /// An insertion or removal addressed a value that is neither an array nor an object.
    NotContainer,
    /// An array index is a numeral, but out of range.
    IndexOutOfRange,
    /// A test found a value different from the expected one.
    TestMismatch,
    /// An array index is neither a numeral nor an allowed `-`.
    MalformedIndex,
}

/// A path: its segments, the document root being the empty path.
pub type Path = Vec<String>;

/// One patch operation.
#[derive(Debug)]
pub enum Op {
    Add(Path, Value),
    Remove(Path),
    Replace(Path, Value),
    /// Copy(to, from)
    Copy(Path, Path),
    /// Move(to, from)
    Move(Path, Path),
    Test(Path, Value),
}

/// Model of one operation.
pub enum OpModel {
    Add(Seq<Seq<char>>, Json),
    Remove(Seq<Seq<char>>),
    Replace(Seq<Seq<char>>, Json),
    Copy(Seq<Seq<char>>, Seq<Seq<char>>),
    Move(Seq<Seq<char>>, Seq<Seq<char>>),
    Test(Seq<Seq<char>>, Json),
}

pub open spec fn path_view(p: Seq<String>) -> Seq<Seq<char>> {
    Seq::new(p.len(), |i: int| p[i]@)
}

impl View for Op {
    type V = OpModel;

    open spec fn view(&self) -> OpModel {
        match self {
            Op::Add(p, v) => OpModel::Add(path_view(p@), v@),
            Op::Remove(p) => OpModel::Remove(path_view(p@)),
            Op::Replace(p, v) => OpModel::Replace(path_view(p@), v@),
            Op::Copy(p, f) => OpModel::Copy(path_view(p@), path_view(f@)),
            Op::Move(p, f) => OpModel::Move(path_view(p@), path_view(f@)),
            Op::Test(p, v) => OpModel::Test(path_view(p@), v@),
        }
    }
}

/// An ordered list of operations, applied as one unit.
#[derive(Debug)]
pub struct Patch {
    pub ops: Vec<Op>,
}

pub open spec fn ops_view(ops: Seq<Op>) -> Seq<OpModel> {
    Seq::new(ops.len(), |i: int| ops[i]@)
}

impl View for Patch {
    type V = Seq<OpModel>;

    open spec fn view(&self) -> Seq<OpModel> {
        ops_view(self.ops@)
    }
}

// ---------------------------------------------------------------------------
// The array-index rule

pub open spec fn is_digit(c: char) -> bool {
    '0' <= c && c <= '9'
}

pub open spec fn is_numeral(s: Seq<char>) -> bool {
    s.len() > 0 && forall|i: int| 0 <= i < s.len() ==> is_digit(#[trigger] s[i])
}

pub open spec fn numeral_value(s: Seq<char>) -> nat
    decreases s.len(),
{
    if s.len() == 0 {
        0
    } else {
        numeral_value(s.drop_last()) * 10 + ((s.last() as u32) - ('0' as u32)) as nat
    }
}

/// The index that an array key names in an array of length `len`: `-` names
/// `len` and is allowed only for insertion; a numeral must be below `len`, or
/// at most `len` for insertion.
pub open spec fn array_index(key: Seq<char>, len: nat, for_insert: bool) -> Result<nat, PatchError> {
    if key == seq!['-'] {
        if for_insert {
            Ok(len)
        } else {
            Err(PatchError::MalformedIndex)
        }
    } else if !is_numeral(key) {
        Err(PatchError::MalformedIndex)
    } else if numeral_value(key) < len || (for_insert && numeral_value(key) == len) {
        Ok(numeral_value(key))
    } else {
        Err(PatchError::IndexOutOfRange)
    }
}

proof fn lemma_numeral_prefix_grows(s: Seq<char>, k: int)
    requires
        0 <= k <= s.len(),
        forall|i: int| 0 <= i < s.len() ==> is_digit(#[trigger] s[i]),
    ensures
        numeral_value(s.subrange(0, k)) <= numeral_value(s),
    decreases s.len() - k,
{
    if k < s.len() {
        lemma_numeral_prefix_grows(s, k + 1);
        let t = s.subrange(0, k + 1);
        assert(t.drop_last() =~= s.subrange(0, k));
    } else {
        assert(s.subrange(0, k) =~= s);
    }
}

/// Resolves an array key against an array of length `len`.
pub fn string_to_index(key: &str, len: usize, for_insert: bool) -> (r: Result<usize, PatchError>)
    ensures
        match array_index(key@, len as nat, for_insert) {
            Ok(i) => r == Ok::<usize, PatchError>(i as usize),
            Err(e) => r == Err::<usize, PatchError>(e),
        },
{
    if !key.is_ascii() {
        assert(!is_numeral(key@)) by {
            if is_numeral(key@) {
                assert forall|i: int| 0 <= i < key@.len() implies '\0' <= #[trigger] key@[i] <= '\u{7f}' by {
                    assert(is_digit(key@[i]));
                }
            }
        }
        assert(key@ != seq!['-']) by {
            if key@ == seq!['-'] {
                assert(key@[0] == '-');
                assert(is_ascii(key));
            }
        }
        return Err(PatchError::MalformedIndex);
    }
    let b = key.as_bytes();
    proof {
        assert(b@ =~= Seq::new(key@.len(), |i: int| key@[i] as u8));
    }
    let n = b.len();
    if n == 1 && b[0] == 45u8 {
        assert(key@ =~= seq!['-']);
        if for_insert {
            return Ok(len);
        } else {
            return Err(PatchError::MalformedIndex);
        }
    }
    assert(key@ != seq!['-']) by {
        if key@ == seq!['-'] {
            assert(b@[0] == 45u8);
        }
    }
    if n == 0 {
        return Err(PatchError::MalformedIndex);
    }
    let mut i: usize = 0;
    while i < n
        invariant
            n == b@.len(),
            b@ == Seq::new(key@.len(), |j: int| key@[j] as u8),
            key@.len() == n,
            is_ascii(key),
            key@ != seq!['-'],
            i <= n,
            forall|j: int| 0 <= j < i ==> is_digit(#[trigger] key@[j]),
        decreases n - i,
    {
        let c = b[i];
        if c < 48u8 || c > 57u8 {
            assert(!is_digit(key@[i as int])) by {
                assert('\0' <= key@[i as int] <= '\u{7f}');
            }
            assert(!is_numeral(key@));
            return Err(PatchError::MalformedIndex);
        }
        assert(is_digit(key@[i as int])) by {
            assert('\0' <= key@[i as int] <= '\u{7f}');
        }
        i = i + 1;
    }
    assert(is_numeral(key@));
    let mut v: usize = 0;
    let mut i: usize = 0;
    while i < n
        invariant
            n == b@.len(),
            b@ == Seq::new(key@.len(), |j: int| key@[j] as u8),
            key@.len() == n,
            is_ascii(key),
            key@ != seq!['-'],
            is_numeral(key@),
            i <= n,
            v == numeral_value(key@.subrange(0, i as int)),
            v <= len,
        decreases n - i,
    {
        let d = (b[i] - 48u8) as usize;
        proof {
            let t = key@.subrange(0, i as int + 1);
            assert(t.drop_last() =~= key@.subrange(0, i as int));
            assert('\0' <= key@[i as int] <= '\u{7f}');
            assert(is_digit(key@[i as int]));
            assert(d == (key@[i as int] as u32) - ('0' as u32));
        }
        if d > len || v > (len - d) / 10 {
            proof {
                assert(numeral_value(key@.subrange(0, i as int + 1)) == v * 10 + d);
                assert(v * 10 + d > len) by (nonlinear_arith)
                    requires d > len || (d <= len && v > (len - d) / 10), v >= 0;
                lemma_numeral_prefix_grows(key@, i as int + 1);
            }
            return Err(PatchError::IndexOutOfRange);
        }
        v = v * 10 + d;
        i = i + 1;
    }
    assert(key@.subrange(0, n as int) =~= key@);
    if v < len || (for_insert && v == len) {
        Ok(v)
    } else {
        Err(PatchError::IndexOutOfRange)
    }
}

// ---------------------------------------------------------------------------
// Navigation

/// Position of the first member whose key is `k`, or -1.
pub open spec fn key_index(m: Seq<(Seq<char>, Json)>, k: Seq<char>) -> int
    decreases m.len(),
{
    if m.len() == 0 {
        -1
    } else if key_index(m.drop_last(), k) >= 0 {
        key_index(m.drop_last(), k)
    } else if m.last().0 == k {
        m.len() - 1
    } else {
        -1
    }
}

pub proof fn lemma_key_index_found(m: Seq<(Seq<char>, Json)>, k: Seq<char>)
    ensures
        -1 <= key_index(m, k) < m.len(),
        key_index(m, k) >= 0 ==> m[key_index(m, k)].0 == k,
        key_index(m, k) >= 0 ==> forall|j: int| 0 <= j < key_index(m, k) ==> #[trigger] m[j].0 != k,
        key_index(m, k) < 0 ==> forall|j: int| 0 <= j < m.len() ==> #[trigger] m[j].0 != k,
    decreases m.len(),
{
    if m.len() > 0 {
        lemma_key_index_found(m.drop_last(), k);
        assert forall|j: int| 0 <= j < m.len() - 1 implies #[trigger] m[j] == m.drop_last()[j] by {}
    }
}

pub proof fn lemma_key_index_first(m: Seq<(Seq<char>, Json)>, k: Seq<char>, i: int)
    requires
        0 <= i < m.len(),
        m[i].0 == k,
        forall|j: int| 0 <= j < i ==> m[j].0 != k,
    ensures
        key_index(m, k) == i,
{
    lemma_key_index_found(m, k);
    let c = key_index(m, k);
    if c < 0 {
        assert(m[i].0 != k);
    } else if c < i {
        assert(m[c].0 != k);
    } else if c > i {
        assert(m[i].0 != k);
    }
}

pub proof fn lemma_key_index_absent(m: Seq<(Seq<char>, Json)>, k: Seq<char>)
    requires
        forall|j: int| 0 <= j < m.len() ==> m[j].0 != k,
    ensures
        key_index(m, k) == -1,
{
    lemma_key_index_found(m, k);
    if key_index(m, k) >= 0 {
        assert(m[key_index(m, k)].0 == k);
    }
}

/// Deep equality of JSON values: same kind and scalars, equal elements in
/// the same order, and for objects as many members, each member of the first
/// found under its key in the second with an equal value, and each key of the
/// second found in the first, in whatever order.
pub open spec fn json_eq(a: Json, b: Json) -> bool
    decreases a,
{
    match a {
        Json::Null => b is Null,
        Json::Bool(x) => b is Bool && b->Bool_0 == x,
        Json::Number(x) => b is Number && b->Number_0 == x,
        Json::Str(x) => b is Str && b->Str_0 == x,
        Json::Array(x) => b is Array && elems_eq(x, b->Array_0),
        Json::Object(x) => b is Object && x.len() == b->Object_0.len() && members_eq(x, b->Object_0)
            && keys_within(b->Object_0, x),
    }
}

/// Every key of `y` is a key of `x`.
pub open spec fn keys_within(y: Seq<(Seq<char>, Json)>, x: Seq<(Seq<char>, Json)>) -> bool {
    forall|j: int| 0 <= j < y.len() ==> key_index(x, #[trigger] y[j].0) >= 0
}

/// Same length and pairwise deeply equal elements.
pub open spec fn elems_eq(x: Seq<Json>, y: Seq<Json>) -> bool
    decreases x,
{
    if x.len() == 0 {
        y.len() == 0
    } else {
        y.len() == x.len() && elems_eq(x.subrange(0, x.len() - 1), y.subrange(0, y.len() - 1))
            && json_eq(x[x.len() - 1], y[y.len() - 1])
    }
}

/// Each member of `x` has its key in `y`, with a deeply equal value.
pub open spec fn members_eq(x: Seq<(Seq<char>, Json)>, y: Seq<(Seq<char>, Json)>) -> bool
    decreases x,
{
    if x.len() == 0 {
        true
    } else {
        members_eq(x.subrange(0, x.len() - 1), y) && key_index(y, x[x.len() - 1].0) >= 0
            && json_eq(x[x.len() - 1].1, y[key_index(y, x[x.len() - 1].0)].1)
    }
}

proof fn lemma_elems_eq_prefix(x: Seq<Json>, y: Seq<Json>, k: int)
    requires
        0 <= k <= x.len(),
        elems_eq(x, y),
    ensures
        elems_eq(x.subrange(0, k), y.subrange(0, k)),
    decreases x.len(),
{
    if k == x.len() {
        assert(x.subrange(0, k) =~= x);
        assert(y.subrange(0, k) =~= y);
    } else {
        let x1 = x.subrange(0, x.len() - 1);
        let y1 = y.subrange(0, y.len() - 1);
        lemma_elems_eq_prefix(x1, y1, k);
        assert(x1.subrange(0, k) =~= x.subrange(0, k));
        assert(y1.subrange(0, k) =~= y.subrange(0, k));
    }
}

proof fn lemma_members_eq_prefix(x: Seq<(Seq<char>, Json)>, y: Seq<(Seq<char>, Json)>, k: int)
    requires
        0 <= k <= x.len(),
        members_eq(x, y),
    ensures
        members_eq(x.subrange(0, k), y),
    decreases x.len(),
{
    if k == x.len() {
        assert(x.subrange(0, k) =~= x);
    } else {
        let x1 = x.subrange(0, x.len() - 1);
        lemma_members_eq_prefix(x1, y, k);
        assert(x1.subrange(0, k) =~= x.subrange(0, k));
    }
}

/// Deep equality of two values, objects compared as mappings.
pub fn deep_equal(a: &Value, b: &Value) -> (r: bool)
    ensures
        r == json_eq(a@, b@),
    decreases a,
{
    match a {
        Value::Null => match b {
            Value::Null => true,
            _ => false,
        },
        Value::Bool(x) => match b {
            Value::Bool(y) => *x == *y,
            _ => false,
        },
        Value::Number(x) => match b {
            Value::Number(y) => *x == *y,
            _ => false,
        },
        Value::String(x) => match b {
            Value::String(y) => *x == *y,
            _ => false,
        },
        Value::Array(x) => match b {
            Value::Array(y) => {
                proof {
                    lemma_array_view(*x);
                    lemma_array_view(*y);
                }
                let ghost xv = views(x@);
                let ghost yv = views(y@);
                assert(xv.len() == x@.len() && yv.len() == y@.len());
                if x.len() != y.len() {
                    return false;
                }
                let mut i: usize = 0;
                assert(xv.subrange(0, 0) =~= Seq::<Json>::empty());
                assert(yv.subrange(0, 0) =~= Seq::<Json>::empty());
                while i < x.len()
                    invariant
                        i <= x@.len(),
                        x@.len() == y@.len(),
                        *a == Value::Array(*x),
                        a@ == Json::Array(xv),
                        b@ == Json::Array(yv),
                        xv == views(x@),
                        yv == views(y@),
                        xv.len() == x@.len(),
                        yv.len() == y@.len(),
                        elems_eq(xv.subrange(0, i as int), yv.subrange(0, i as int)),
                    decreases x@.len() - i,
                {
                    proof {
                        assert(decreases_to!(*a => (*a)->Array_0));
                        assert(decreases_to!(*x => x@[i as int]));
                    }
                    let e = deep_equal(&x[i], &y[i]);
                    let ghost xs = xv.subrange(0, i as int + 1);
                    let ghost ys = yv.subrange(0, i as int + 1);
                    assert(xs.subrange(0, i as int) =~= xv.subrange(0, i as int));
                    assert(ys.subrange(0, i as int) =~= yv.subrange(0, i as int));
                    assert(xs[i as int] == x@[i as int]@ && ys[i as int] == y@[i as int]@);
                    if !e {
                        proof {
                            assert(!elems_eq(xs, ys));
                            if elems_eq(xv, yv) {
                                lemma_elems_eq_prefix(xv, yv, i as int + 1);
                            }
                        }
                        return false;
                    }
                    i = i + 1;
                }
                assert(xv.subrange(0, i as int) =~= xv);
                assert(yv.subrange(0, i as int) =~= yv);
                true
            },
            _ => false,
        },
        Value::Object(x) => match b {
            Value::Object(y) => {
                proof {
                    lemma_object_view(*x);
                    lemma_object_view(*y);
                }
                let ghost xv = member_views(x@);
                let ghost yv = member_views(y@);
                assert(xv.len() == x@.len() && yv.len() == y@.len());
                if x.len() != y.len() {
                    return false;
                }
                let mut i: usize = 0;
                assert(xv.subrange(0, 0) =~= Seq::<(Seq<char>, Json)>::empty());
                while i < x.len()
                    invariant
                        i <= x@.len(),
                        x@.len() == y@.len(),
                        *a == Value::Object(*x),
                        a@ == Json::Object(xv),
                        b@ == Json::Object(yv),
                        xv == member_views(x@),
                        yv == member_views(y@),
                        xv.len() == x@.len(),
                        yv.len() == y@.len(),
                        members_eq(xv.subrange(0, i as int), yv),
                    decreases x@.len() - i,
                {
                    let ghost xs = xv.subrange(0, i as int + 1);
                    assert(xs.subrange(0, i as int) =~= xv.subrange(0, i as int));
                    assert(xs[i as int] == xv[i as int]);
                    assert(xv[i as int].0 == x@[i as int].0@);
                    match find_member(y, &x[i].0) {
                        None => {
                            proof {
                                assert(!members_eq(xs, yv));
                                if members_eq(xv, yv) {
                                    lemma_members_eq_prefix(xv, yv, i as int + 1);
                                }
                            }
                            return false;
                        },
                        Some(j) => {
                            proof {
                                assert(decreases_to!(*a => (*a)->Object_0));
                                assert(decreases_to!(*x => x@[i as int]));
                                assert(decreases_to!(x@[i as int] => x@[i as int].1));
                            }
                            assert(yv[j as int].1 == y@[j as int].1@);
                            if !deep_equal(&x[i].1, &y[j].1) {
                                proof {
                                    assert(!members_eq(xs, yv));
                                    if members_eq(xv, yv) {
                                        lemma_members_eq_prefix(xv, yv, i as int + 1);
                                    }
                                }
                                return false;
                            }
                        },
                    }
                    i = i + 1;
                }
                assert(xv.subrange(0, i as int) =~= xv);
                let mut j: usize = 0;
                while j < y.len()
                    invariant
                        j <= y@.len(),
                        x@.len() == y@.len(),
                        a@ == Json::Object(xv),
                        b@ == Json::Object(yv),
                        xv == member_views(x@),
                        yv == member_views(y@),
                        xv.len() == x@.len(),
                        yv.len() == y@.len(),
                        members_eq(xv, yv),
                        forall|k: int| 0 <= k < j ==> key_index(xv, #[trigger] yv[k].0) >= 0,
                    decreases y@.len() - j,
                {
                    assert(yv[j as int].0 == y@[j as int].0@);
                    if find_member(x, &y[j].0).is_none() {
                        assert(!keys_within(yv, xv));
                        return false;
                    }
                    j = j + 1;
                }
                true
            },
            _ => false,
        },
    }
}

/// The child of `v` under key `k`.
pub open spec fn child(v: Json, k: Seq<char>) -> Option<Json> {
    match v {
        Json::Object(m) => if key_index(m, k) >= 0 {
            Some(m[key_index(m, k)].1)
        } else {
            None
        },
        Json::Array(a) => match array_index(k, a.len(), false) {
            Ok(i) => Some(a[i as int]),
            Err(_) => None,
        },
        _ => None,
    }
}

/// The value found at path `p` inside `v`.
pub open spec fn get_path(v: Json, p: Seq<Seq<char>>) -> Option<Json>
    decreases p.len(),
{
    if p.len() == 0 {
        Some(v)
    } else {
        match child(v, p[0]) {
            Some(c) => get_path(c, p.drop_first()),
            None => None,
        }
    }
}

/// `v` with its existing child under `k` replaced by `c`.
pub open spec fn set_child(v: Json, k: Seq<char>, c: Json) -> Json {
    match v {
        Json::Object(m) => Json::Object(m.update(key_index(m, k), (k, c))),
        Json::Array(a) => match array_index(k, a.len(), false) {
            Ok(i) => Json::Array(a.update(i as int, c)),
            Err(_) => v,
        },
        _ => v,
    }
}

/// What an edit does at the end of a path.
pub enum Edit {
    Insert(Json),
    Replace(Json),
    Remove,
}

/// An edit of container `c` at key `k`: the new container and the removed
/// value (`Null` where nothing is removed).
pub open spec fn edit_child(c: Json, k: Seq<char>, e: Edit) -> Result<(Json, Json), PatchError> {
    match c {
        Json::Object(m) => {
            let i = key_index(m, k);
            match e {
                Edit::Insert(x) => if i >= 0 {
                    Ok((Json::Object(m.update(i, (k, x))), Json::Null))
                } else {
                    Ok((Json::Object(m.push((k, x))), Json::Null))
                },
                Edit::Replace(x) => if i >= 0 {
                    Ok((Json::Object(m.update(i, (k, x))), Json::Null))
                } else {
                    Err(PatchError::PathNotFound)
                },
                Edit::Remove => if i >= 0 {
                    Ok((Json::Object(m.remove(i)), m[i].1))
                } else {
                    Err(PatchError::PathNotFound)
                },
            }
        },
        Json::Array(a) => match e {
            Edit::Insert(x) => match array_index(k, a.len(), true) {
                Ok(i) => Ok((Json::Array(a.insert(i as int, x)), Json::Null)),
                Err(err) => Err(err),
            },
            Edit::Replace(x) => match array_index(k, a.len(), false) {
                Ok(i) => Ok((Json::Array(a.update(i as int, x)), Json::Null)),
                Err(err) => Err(err),
            },
            Edit::Remove => match array_index(k, a.len(), false) {
                Ok(i) => Ok((Json::Array(a.remove(i as int)), a[i as int])),
                Err(err) => Err(err),
            },
        },
        _ => Err(PatchError::NotContainer),
    }
}

/// An edit at the end of the non-empty path `p` inside `v`: the new value and
/// the removed one.
pub open spec fn edit_at(v: Json, p: Seq<Seq<char>>, e: Edit) -> Result<(Json, Json), PatchError>
    decreases p.len(),
{
    if p.len() == 0 {
        Err(PatchError::PathNotFound)
    } else if p.len() == 1 {
        edit_child(v, p[0], e)
    } else {
        match child(v, p[0]) {
            None => Err(PatchError::PathNotFound),
            Some(c) => match edit_at(c, p.drop_first(), e) {
                Ok((nc, out)) => Ok((set_child(v, p[0], nc), out)),
                Err(err) => Err(err),
            },
        }
    }
}

/// Finds the first member with key `k`.
pub(crate) fn find_member(m: &Vec<(String, Value)>, k: &String) -> (r: Option<usize>)
    ensures
        match r {
            Some(i) => i as int == key_index(member_views(m@), k@) && i < m@.len(),
            None => key_index(member_views(m@), k@) < 0,
        },
{
    let ghost mv = member_views(m@);
    let mut i: usize = 0;
    while i < m.len()
        invariant
            i <= m@.len(),
            mv == member_views(m@),
            forall|j: int| 0 <= j < i ==> #[trigger] mv[j].0 != k@,
        decreases m@.len() - i,
    {
        if m[i].0 == *k {
            proof {
                assert(mv[i as int].0 == k@);
                lemma_key_index_first(mv, k@, i as int);
            }
            return Some(i);
        }
        assert(mv[i as int].0 != k@);
        i = i + 1;
    }
    proof {
        assert forall|x: int| 0 <= x < mv.len() implies mv[x].0 != k@ by {
            assert(mv[x].0 != k@);
        }
        lemma_key_index_absent(mv, k@);
    }
    None
}

/// The child of `v` under key `k`.
fn get_child<'a>(v: &'a Value, k: &String) -> (r: Option<&'a Value>)
    ensures
        match child(v@, k@) {
            Some(c) => r is Some && r->0@ == c,
            None => r is None,
        },
{
    match v {
        Value::Object(m) => {
            proof { lemma_object_view(*m); }
            let ghost mv = member_views(m@);
            assert(v@ == Json::Object(mv));
            match find_member(m, k) {
                Some(i) => {
                    assert(mv[i as int].1 == m@[i as int].1@);
                    assert(key_index(mv, k@) == i as int);
                    assert(child(Json::Object(mv), k@) == Some(mv[i as int].1));
                    Some(&m[i].1)
                },
                None => {
                    assert(child(v@, k@) is None);
                    None
                },
            }
        },
        Value::Array(a) => {
            proof { lemma_array_view(*a); }
            let ghost av = views(a@);
            assert(v@ == Json::Array(av));
            match string_to_index(k.as_str(), a.len(), false) {
                Ok(i) => {
                    assert(av[i as int] == a@[i as int]@);
                    Some(&a[i])
                },
                Err(_) => None,
            }
        },
        _ => None,
    }
}

/// The value at path `p` inside `v`, if there is one.
pub fn locate<'a>(v: &'a Value, p: &[String]) -> (r: Option<&'a Value>)
    ensures
        match get_path(v@, path_view(p@)) {
            Some(c) => r is Some && r->0@ == c,
            None => r is None,
        },
{
    let ghost pv = path_view(p@);
    let mut cur: &Value = v;
    let mut i: usize = 0;
    assert(pv.subrange(0, pv.len() as int) =~= pv);
    while i < p.len()
        invariant
            i <= p@.len(),
            pv == path_view(p@),
            get_path(v@, pv) == get_path(cur@, pv.subrange(i as int, pv.len() as int)),
        decreases p@.len() - i,
    {
        proof {
            let rest = pv.subrange(i as int, pv.len() as int);
            assert(rest.drop_first() =~= pv.subrange(i as int + 1, pv.len() as int));
            assert(rest[0] == p@[i as int]@);
        }
        match get_child(cur, &p[i]) {
            Some(c) => {
                cur = c;
            },
            None => {
                return None;
            },
        }
        i = i + 1;
    }
    assert(pv.subrange(i as int, pv.len() as int) =~= Seq::<Seq<char>>::empty());
    Some(cur)
}

// ---------------------------------------------------------------------------
// Edits

/// An edit to perform, with the value that it puts in place.
pub enum EditOp {
    Insert(Value),
    Replace(Value),
    Remove,
}

impl View for EditOp {
    type V = Edit;

    open spec fn view(&self) -> Edit {
        match self {
            EditOp::Insert(x) => Edit::Insert(x@),
            EditOp::Replace(x) => Edit::Replace(x@),
            EditOp::Remove => Edit::Remove,
        }
    }
}

/// `r` is what an edit of `v` with modelled outcome `res` hands back: the new
/// value and the removed one, or `v` unchanged and the error.
pub open spec fn edit_outcome(
    v: Json,
    res: Result<(Json, Json), PatchError>,
    r: (Value, Result<Value, PatchError>),
) -> bool {
    match res {
        Ok((nv, out)) => r.0@ == nv && r.1 is Ok && r.1->Ok_0@ == out,
        Err(e) => r.0@ == v && r.1 == Err::<Value, PatchError>(e),
    }
}

fn edit_object(m: Vec<(String, Value)>, k: &String, e: EditOp) -> (r: (Value, Result<Value, PatchError>))
    ensures
        edit_outcome(Value::Object(m)@, edit_child(Value::Object(m)@, k@, e@), r),
{
    let mut m = m;

    proof { lemma_object_view(m); }
    let ghost mv = member_views(m@);
    let found = find_member(&m, k);
    match e {
        EditOp::Insert(x) => {
            match found {
                Some(i) => {
                    m.remove(i);
                    m.insert(i, (k.clone(), x));
                    assert(member_views(m@) =~= mv.update(i as int, (k@, x@)));
                },
                None => {
                    m.push((k.clone(), x));
                    assert(member_views(m@) =~= mv.push((k@, x@)));
                },
            }
            proof { lemma_object_view(m); }
            (Value::Object(m), Ok(Value::Null))
        },
        EditOp::Replace(x) => {
            match found {
                Some(i) => {
                    m.remove(i);
                    m.insert(i, (k.clone(), x));
                    assert(member_views(m@) =~= mv.update(i as int, (k@, x@)));
                    proof { lemma_object_view(m); }
                    (Value::Object(m), Ok(Value::Null))
                },
                None => (Value::Object(m), Err(PatchError::PathNotFound)),
            }
        },
        EditOp::Remove => {
            match found {
                Some(i) => {
                    let (_, out) = m.remove(i);
                    assert(member_views(m@) =~= mv.remove(i as int));
                    proof { lemma_object_view(m); }
                    (Value::Object(m), Ok(out))
                },
                None => (Value::Object(m), Err(PatchError::PathNotFound)),
            }
        },
    }
}

fn edit_array(a: Vec<Value>, k: &String, e: EditOp) -> (r: (Value, Result<Value, PatchError>))
    ensures
        edit_outcome(Value::Array(a)@, edit_child(Value::Array(a)@, k@, e@), r),
{
    let mut a = a;

    proof { lemma_array_view(a); }
    let ghost av = views(a@);
    match e {
        EditOp::Insert(x) => {
            match string_to_index(k.as_str(), a.len(), true) {
                Ok(i) => {
                    a.insert(i, x);
                    assert(views(a@) =~= av.insert(i as int, x@));
                    proof { lemma_array_view(a); }
                    (Value::Array(a), Ok(Value::Null))
                },
                Err(err) => (Value::Array(a), Err(err)),
            }
        },
        EditOp::Replace(x) => {
            match string_to_index(k.as_str(), a.len(), false) {
                Ok(i) => {
                    a.remove(i);
                    a.insert(i, x);
                    assert(views(a@) =~= av.update(i as int, x@));
                    proof { lemma_array_view(a); }
                    (Value::Array(a), Ok(Value::Null))
                },
                Err(err) => (Value::Array(a), Err(err)),
            }
        },
        EditOp::Remove => {
            match string_to_index(k.as_str(), a.len(), false) {
                Ok(i) => {
                    let out = a.remove(i);
                    assert(views(a@) =~= av.remove(i as int));
                    proof { lemma_array_view(a); }
                    (Value::Array(a), Ok(out))
                },
                Err(err) => (Value::Array(a), Err(err)),
            }
        },
    }
}

fn edit_child_exec(c: Value, k: &String, e: EditOp) -> (r: (Value, Result<Value, PatchError>))
    ensures
        edit_outcome(c@, edit_child(c@, k@, e@), r),
{
    match c {
        Value::Object(m) => edit_object(m, k, e),
        Value::Array(a) => edit_array(a, k, e),
        other => (other, Err(PatchError::NotContainer)),
    }
}

fn edit_at_exec(v: Value, p: &Vec<String>, i: usize, e: EditOp) -> (r: (Value, Result<Value, PatchError>))
    requires
        i < p@.len(),
    ensures
        edit_outcome(v@, edit_at(v@, path_view(p@).subrange(i as int, p@.len() as int), e@), r),
    decreases p@.len() - i,
{
    let ghost pv = path_view(p@);
    let ghost rest = pv.subrange(i as int, p@.len() as int);
    assert(rest[0] == p@[i as int]@);
    if i == p.len() - 1 {
        assert(rest.len() == 1);
        return edit_child_exec(v, &p[i], e);
    }
    assert(rest.drop_first() =~= pv.subrange(i as int + 1, p@.len() as int));
    let ghost vv = v@;
    match v {
        Value::Object(mut m) => {
            proof { lemma_object_view(m); }
            let ghost mv = member_views(m@);
            match find_member(&m, &p[i]) {
                None => (Value::Object(m), Err(PatchError::PathNotFound)),
                Some(j) => {
                    proof { lemma_key_index_found(mv, p@[i as int]@); }
                    let (key, c) = m.remove(j);
                    assert(c@ == mv[j as int].1);
                    assert(key@ == rest[0]);
                    let (nc, res) = edit_at_exec(c, p, i + 1, e);
                    m.insert(j, (key, nc));
                    proof {
                        assert(member_views(m@) =~= mv.update(j as int, (rest[0], nc@)));
                        lemma_object_view(m);
                        if res is Err {
                            assert(mv.update(j as int, (rest[0], nc@)) =~= mv);
                        }
                    }
                    (Value::Object(m), res)
                },
            }
        },
        Value::Array(mut a) => {
            proof { lemma_array_view(a); }
            let ghost av = views(a@);
            match string_to_index(p[i].as_str(), a.len(), false) {
                Err(_) => (Value::Array(a), Err(PatchError::PathNotFound)),
                Ok(j) => {
                    let c = a.remove(j);
                    assert(c@ == av[j as int]);
                    let (nc, res) = edit_at_exec(c, p, i + 1, e);
                    a.insert(j, nc);
                    proof {
                        assert(views(a@) =~= av.update(j as int, nc@));
                        lemma_array_view(a);
                        if res is Err {
                            assert(av.update(j as int, nc@) =~= av);
                        }
                    }
                    (Value::Array(a), res)
                },
            }
        },
        other => (other, Err(PatchError::PathNotFound)),
    }
}

// ---------------------------------------------------------------------------
// Operations and patches

/// Add `x` at path `p` of `v`; the empty path replaces the whole value.
pub open spec fn add_spec(v: Json, p: Seq<Seq<char>>, x: Json) -> Result<Json, PatchError> {
    if p.len() == 0 {
        Ok(x)
    } else {
        match edit_at(v, p, Edit::Insert(x)) {
            Ok((nv, _)) => Ok(nv),
            Err(e) => Err(e),
        }
    }
}

/// The value that one operation makes of `v`.
pub open spec fn apply_op_spec(v: Json, op: OpModel) -> Result<Json, PatchError> {
    match op {
        OpModel::Add(p, x) => add_spec(v, p, x),
        OpModel::Replace(p, x) => if p.len() == 0 {
            Ok(x)
        } else {
            match edit_at(v, p, Edit::Replace(x)) {
                Ok((nv, _)) => Ok(nv),
                Err(e) => Err(e),
            }
        },
        OpModel::Remove(p) => if p.len() == 0 {
            Err(PatchError::PathNotFound)
        } else {
            match edit_at(v, p, Edit::Remove) {
                Ok((nv, _)) => Ok(nv),
                Err(e) => Err(e),
            }
        },
        OpModel::Test(p, x) => match get_path(v, p) {
            None => Err(PatchError::PathNotFound),
            Some(c) => if json_eq(c, x) {
                Ok(v)
            } else {
                Err(PatchError::TestMismatch)
            },
        },
        OpModel::Move(to, from) => if from.len() == 0 {
            Err(PatchError::PathNotFound)
        } else {
            match edit_at(v, from, Edit::Remove) {
                Ok((v1, x)) => add_spec(v1, to, x),
                Err(e) => Err(e),
            }
        },
        OpModel::Copy(to, from) => match get_path(v, from) {
            None => Err(PatchError::PathNotFound),
            Some(x) => add_spec(v, to, x),
        },
    }
}

/// The value that a list of operations, applied in order, makes of `v`; the
/// first failure is the result.
pub open spec fn apply_ops(v: Json, ops: Seq<OpModel>) -> Result<Json, PatchError>
    decreases ops.len(),
{
    if ops.len() == 0 {
        Ok(v)
    } else {
        match apply_op_spec(v, ops[0]) {
            Ok(v1) => apply_ops(v1, ops.drop_first()),
            Err(e) => Err(e),
        }
    }
}

fn add_value(v: Value, p: &Vec<String>, x: Value) -> (r: (Value, Result<(), PatchError>))
    ensures
        match add_spec(v@, path_view(p@), x@) {
            Ok(nv) => r.0@ == nv && r.1 is Ok,
            Err(e) => r.0@ == v@ && r.1 == Err::<(), PatchError>(e),
        },
{
    if p.len() == 0 {
        return (x, Ok(()));
    }
    assert(path_view(p@).subrange(0, p@.len() as int) =~= path_view(p@));
    let (nv, res) = edit_at_exec(v, p, 0, EditOp::Insert(x));
    match res {
        Ok(_) => (nv, Ok(())),
        Err(e) => (nv, Err(e)),
    }
}

fn apply_op_value(op: &Op, v: Value) -> (r: (Value, Result<(), PatchError>))
    ensures
        match apply_op_spec(v@, op@) {
            Ok(nv) => r.0@ == nv && r.1 is Ok,
            Err(e) => r.1 == Err::<(), PatchError>(e) && (!(op@ is Move) ==> r.0@ == v@),
        },
{
    match op {
        Op::Add(p, x) => add_value(v, p, x.deep_copy()),
        Op::Replace(p, x) => {
            if p.len() == 0 {
                return (x.deep_copy(), Ok(()));
            }
            assert(path_view(p@).subrange(0, p@.len() as int) =~= path_view(p@));
            let (nv, res) = edit_at_exec(v, p, 0, EditOp::Replace(x.deep_copy()));
            match res {
                Ok(_) => (nv, Ok(())),
                Err(e) => (nv, Err(e)),
            }
        },
        Op::Remove(p) => {
            if p.len() == 0 {
                return (v, Err(PatchError::PathNotFound));
            }
            assert(path_view(p@).subrange(0, p@.len() as int) =~= path_view(p@));
            let (nv, res) = edit_at_exec(v, p, 0, EditOp::Remove);
            match res {
                Ok(_) => (nv, Ok(())),
                Err(e) => (nv, Err(e)),
            }
        },
        Op::Test(p, x) => {
            let res = match locate(&v, p.as_slice()) {
                None => Err(PatchError::PathNotFound),
                Some(c) => if deep_equal(c, x) {
                    Ok(())
                } else {
                    Err(PatchError::TestMismatch)
                },
            };
            (v, res)
        },
        Op::Move(to, from) => {
            if from.len() == 0 {
                return (v, Err(PatchError::PathNotFound));
            }
            assert(path_view(from@).subrange(0, from@.len() as int) =~= path_view(from@));
            let (v1, res) = edit_at_exec(v, from, 0, EditOp::Remove);
            match res {
                Err(e) => (v1, Err(e)),
                Ok(x) => add_value(v1, to, x),
            }
        },
        Op::Copy(to, from) => {
            let found = match locate(&v, from.as_slice()) {
                Some(c) => Some(c.deep_copy()),
                None => None,
            };
            match found {
                None => (v, Err(PatchError::PathNotFound)),
                Some(x) => add_value(v, to, x),
            }
        },
    }
}

/// Applies one operation to `root` in place. On failure `root` is left as it
/// was, but for a move whose insertion failed after its removal.
pub fn apply_op(op: &Op, root: &mut Value) -> (r: Result<(), PatchError>)
    ensures
        match apply_op_spec(old(root)@, op@) {
            Ok(nv) => r is Ok && final(root)@ == nv,
            Err(e) => r == Err::<(), PatchError>(e) && (!(op@ is Move) ==> final(root)@ == old(root)@),
        },
{
    let mut v = Value::Null;
    std::mem::swap(root, &mut v);
    let (nv, res) = apply_op_value(op, v);
    *root = nv;
    res
}

/// Applies a patch to a copy of `v`: the new value when every operation
/// succeeds, else the first failure; `v` itself is never changed.
pub fn apply(patch: &Patch, v: &Value) -> (r: Result<Value, PatchError>)
    ensures
        match apply_ops(v@, patch@) {
            Ok(nv) => r is Ok && r->Ok_0@ == nv,
            Err(e) => r == Err::<Value, PatchError>(e),
        },
{
    let ghost ops = patch@;
    let mut cur = v.deep_copy();
    let mut i: usize = 0;
    assert(ops.subrange(0, ops.len() as int) =~= ops);
    while i < patch.ops.len()
        invariant
            ops == patch@,
            ops.len() == patch.ops@.len(),
            i <= ops.len(),
            apply_ops(v@, ops) == apply_ops(cur@, ops.subrange(i as int, ops.len() as int)),
        decreases ops.len() - i,
    {
        proof {
            let rest = ops.subrange(i as int, ops.len() as int);
            assert(rest.drop_first() =~= ops.subrange(i as int + 1, ops.len() as int));
            assert(rest[0] == patch.ops@[i as int]@);
        }
        let res = apply_op(&patch.ops[i], &mut cur);
        if let Err(e) = res {
            return Err(e);
        }
        i = i + 1;
    }
    assert(ops.subrange(i as int, ops.len() as int) =~= Seq::<OpModel>::empty());
    Ok(cur)
}

/// Adding at `-` in an array of length n puts the value at position n and
/// makes the length n + 1; replacing or removing at `-` fails with
/// `MalformedIndex`.
pub proof fn lemma_dash_appends(a: Seq<Json>, x: Json)
    ensures
        edit_child(Json::Array(a), seq!['-'], Edit::Insert(x))
            == Ok::<(Json, Json), PatchError>((Json::Array(a.push(x)), Json::Null)),
        a.push(x).len() == a.len() + 1,
        a.push(x)[a.len() as int] == x,
        edit_child(Json::Array(a), seq!['-'], Edit::Replace(x)) == Err::<(Json, Json), PatchError>(PatchError::MalformedIndex),
        edit_child(Json::Array(a), seq!['-'], Edit::Remove) == Err::<(Json, Json), PatchError>(PatchError::MalformedIndex),
{
    assert(a.insert(a.len() as int, x) =~= a.push(x));
}

/// The same at the top of a document: `add` at `/-` appends to an array,
/// `replace` and `remove` at `/-` fail with `MalformedIndex`.
pub proof fn lemma_dash_appends_at_root(a: Seq<Json>, x: Json)
    ensures
        apply_op_spec(Json::Array(a), OpModel::Add(seq![seq!['-']], x)) == Ok::<Json, PatchError>(Json::Array(a.push(x))),
        apply_op_spec(Json::Array(a), OpModel::Replace(seq![seq!['-']], x)) == Err::<Json, PatchError>(PatchError::MalformedIndex),
        apply_op_spec(Json::Array(a), OpModel::Remove(seq![seq!['-']])) == Err::<Json, PatchError>(PatchError::MalformedIndex),
{
    lemma_dash_appends(a, x);
}

proof fn lemma_child_set_child(v: Json, k: Seq<char>, c: Json)
    requires
        child(v, k) is Some,
    ensures
        child(set_child(v, k, c), k) == Some(c),
{
    match v {
        Json::Object(m) => {
            lemma_key_index_found(m, k);
            let i = key_index(m, k);
            let m2 = m.update(i, (k, c));
            assert forall|j: int| 0 <= j < i implies m2[j].0 != k by {
                assert(m2[j] == m[j]);
            }
            lemma_key_index_first(m2, k, i);
        },
        _ => {},
    }
}

/// An edit at path `p` followed by key `k` is the edit of the container at
/// `p`: it fails as that edit fails, or puts its result at `p`.
pub proof fn lemma_edit_at_parent(v: Json, p: Seq<Seq<char>>, k: Seq<char>, e: Edit)
    requires
        get_path(v, p) is Some,
    ensures
        match edit_child(get_path(v, p)->0, k, e) {
            Err(err) => edit_at(v, p.push(k), e) == Err::<(Json, Json), PatchError>(err),
            Ok((nc, out)) => edit_at(v, p.push(k), e) is Ok && edit_at(v, p.push(k), e)->Ok_0.1 == out
                && get_path(edit_at(v, p.push(k), e)->Ok_0.0, p) == Some(nc),
        },
    decreases p.len(),
{
    if p.len() == 0 {
        assert(p.push(k) =~= seq![k]);
    } else {
        let c0 = child(v, p[0])->0;
        assert(p.push(k).drop_first() =~= p.drop_first().push(k));
        assert(p.push(k)[0] == p[0]);
        lemma_edit_at_parent(c0, p.drop_first(), k, e);
        if let Ok((nc0, out)) = edit_at(c0, p.drop_first().push(k), e) {
            lemma_child_set_child(v, p[0], nc0);
        }
    }
}

/// At any path `p` naming an array of length n: `add` at `p` followed by
/// `-` puts the value at position n, making the length n + 1; `replace` and
/// `remove` there fail with `MalformedIndex`.
pub proof fn lemma_dash_appends_under(v: Json, p: Seq<Seq<char>>, a: Seq<Json>, x: Json)
    requires
        get_path(v, p) == Some(Json::Array(a)),
    ensures
        apply_op_spec(v, OpModel::Add(p.push(seq!['-']), x)) is Ok,
        get_path(apply_op_spec(v, OpModel::Add(p.push(seq!['-']), x))->Ok_0, p) == Some(Json::Array(a.push(x))),
        apply_op_spec(v, OpModel::Replace(p.push(seq!['-']), x)) == Err::<Json, PatchError>(PatchError::MalformedIndex),
        apply_op_spec(v, OpModel::Remove(p.push(seq!['-']))) == Err::<Json, PatchError>(PatchError::MalformedIndex),
{
    lemma_dash_appends(a, x);
    lemma_edit_at_parent(v, p, seq!['-'], Edit::Insert(x));
    lemma_edit_at_parent(v, p, seq!['-'], Edit::Replace(x));
    lemma_edit_at_parent(v, p, seq!['-'], Edit::Remove);
    assert(p.push(seq!['-']).len() > 0);
}

} // verus!
