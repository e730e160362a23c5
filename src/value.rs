use vstd::prelude::*;

verus! {

/// Mathematical model of a JSON value.
pub enum Json {
    Null,
    Bool(bool),
    Number(Seq<char>),
    Str(Seq<char>),
    Array(Seq<Json>),
    Object(Seq<(Seq<char>, Json)>),
}

/// An in-memory JSON value tree.
#[derive(Debug)]
pub enum Value {
    Null,
    Bool(bool),
    /// A number, held as its decimal text.
    Number(String),
    String(String),
    Array(Vec<Value>),
    /// Members in insertion order.
    Object(Vec<(String, Value)>),
}

impl View for Value {
    type V = Json;

    open spec fn view(&self) -> Json
        decreases self,
    {
        match self {
            Value::Null => Json::Null,
            Value::Bool(b) => Json::Bool(*b),
            Value::Number(n) => Json::Number(n@),
            Value::String(s) => Json::Str(s@),
            Value::Array(a) => Json::Array(
                Seq::new(a@.len(), |i: int| if 0 <= i < a@.len() { a@[i].view() } else { Json::Null }),
            ),
            Value::Object(o) => Json::Object(
                Seq::new(o@.len(), |i: int| (o@[i].0@, if 0 <= i < o@.len() { o@[i].1.view() } else { Json::Null })),
            ),
        }
    }
}

/// The models of a sequence of values.
pub open spec fn views(s: Seq<Value>) -> Seq<Json> {
    Seq::new(s.len(), |i: int| s[i]@)
}

/// The models of a sequence of members.
pub open spec fn member_views(s: Seq<(String, Value)>) -> Seq<(Seq<char>, Json)> {
    Seq::new(s.len(), |i: int| (s[i].0@, s[i].1@))
}

pub proof fn lemma_array_view(a: Vec<Value>)
    ensures
        Value::Array(a)@ == Json::Array(views(a@)),
{
    let v = Value::Array(a);
    assert(v@ is Array);
    assert(views(a@) =~= v@->Array_0);
}

pub proof fn lemma_object_view(o: Vec<(String, Value)>)
    ensures
        Value::Object(o)@ == Json::Object(member_views(o@)),
{
    let v = Value::Object(o);
    assert(v@ is Object);
    assert(v@->Object_0.len() == o@.len());
    assert(member_views(o@).len() == o@.len());
    assert(member_views(o@) =~= v@->Object_0);
}

impl Value {
    /// A deep copy of the value.
    pub fn deep_copy(&self) -> (r: Value)
        ensures
            r@ == self@,
        decreases self,
    {
        match self {
            Value::Null => Value::Null,
            Value::Bool(b) => Value::Bool(*b),
            Value::Number(n) => Value::Number(n.clone()),
            Value::String(s) => Value::String(s.clone()),
            Value::Array(a) => {
                let mut out: Vec<Value> = Vec::new();
                let mut i: usize = 0;
                while i < a.len()
                    invariant
                        i <= a@.len(),
                        *self == Value::Array(*a),
                        views(out@) =~= views(a@).subrange(0, i as int),
                    decreases a@.len() - i,
                {
                    let ghost before = out@;
                    assert(views(before).len() == before.len());
                    proof {
                        assert(decreases_to!(*self => (*self)->Array_0));
                        assert(decreases_to!(*a => a@[i as int]));
                    }
                    let c = a[i].deep_copy();
                    out.push(c);
                    assert(views(out@) =~= views(before).push(c@));
                    i = i + 1;
                    assert(views(out@) =~= views(a@).subrange(0, i as int));
                }
                proof {
                    assert(views(a@).subrange(0, i as int) =~= views(a@));
                    lemma_array_view(out);
                    lemma_array_view(*a);
                }
                Value::Array(out)
            },
            Value::Object(o) => {
                let mut out: Vec<(String, Value)> = Vec::new();
                let mut i: usize = 0;
                while i < o.len()
                    invariant
                        i <= o@.len(),
                        *self == Value::Object(*o),
                        member_views(out@) =~= member_views(o@).subrange(0, i as int),
                    decreases o@.len() - i,
                {
                    assert(member_views(out@).len() == out@.len());
                    assert(member_views(o@).subrange(0, i as int).len() == i);
                    let k = o[i].0.clone();
                    proof {
                        assert(decreases_to!(*self => (*self)->Object_0));
                        assert(decreases_to!(*o => o@[i as int]));
                        assert(decreases_to!(o@[i as int] => o@[i as int].1));
                    }
                    let c = o[i].1.deep_copy();
                    out.push((k, c));
                    i = i + 1;
                    assert(member_views(out@) =~= member_views(o@).subrange(0, i as int));
                }
                proof {
                    assert(member_views(o@).subrange(0, i as int) =~= member_views(o@));
                    lemma_object_view(out);
                    lemma_object_view(*o);
                }
                Value::Object(out)
            },
        }
    }

    /// Deep equality of two values: same kind, same scalars, same elements
    /// and members in the same order.
    pub fn equals(&self, other: &Value) -> (r: bool)
        ensures
            r == (self@ == other@),
        decreases self,
    {
        match (self, other) {
            (Value::Null, Value::Null) => true,
            (Value::Bool(a), Value::Bool(b)) => *a == *b,
            (Value::Number(a), Value::Number(b)) => *a == *b,
            (Value::String(a), Value::String(b)) => *a == *b,
            (Value::Array(a), Value::Array(b)) => {
                assert(*self == Value::Array(*a) && *other == Value::Array(*b));
                proof {
                    lemma_array_view(*a);
                    lemma_array_view(*b);
                }
                if a.len() != b.len() {
                    assert(views(a@).len() == a@.len() && views(b@).len() == b@.len());
                    return false;
                }
                let mut i: usize = 0;
                while i < a.len()
                    invariant
                        i <= a@.len(),
                        a@.len() == b@.len(),
                        *self == Value::Array(*a),
                        self@ == Json::Array(views(a@)),
                        other@ == Json::Array(views(b@)),
                        views(a@).subrange(0, i as int) =~= views(b@).subrange(0, i as int),
                    decreases a@.len() - i,
                {
                    proof {
                        assert(decreases_to!(*self => (*self)->Array_0));
                        assert(decreases_to!(*a => a@[i as int]));
                    }
                    if !a[i].equals(&b[i]) {
                        assert(views(a@)[i as int] != views(b@)[i as int]);
                        return false;
                    }
                    i = i + 1;
                    assert(views(a@).subrange(0, i as int) =~= views(b@).subrange(0, i as int));
                }
                assert(views(a@) =~= views(a@).subrange(0, i as int));
                assert(views(b@) =~= views(b@).subrange(0, i as int));
                true
            },
            (Value::Object(a), Value::Object(b)) => {
                assert(*self == Value::Object(*a) && *other == Value::Object(*b));
                proof {
                    lemma_object_view(*a);
                    lemma_object_view(*b);
                }
                if a.len() != b.len() {
                    assert(member_views(a@).len() == a@.len() && member_views(b@).len() == b@.len());
                    return false;
                }
                let mut i: usize = 0;
                while i < a.len()
                    invariant
                        i <= a@.len(),
                        a@.len() == b@.len(),
                        *self == Value::Object(*a),
                        self@ == Json::Object(member_views(a@)),
                        other@ == Json::Object(member_views(b@)),
                        member_views(a@).subrange(0, i as int) =~= member_views(b@).subrange(0, i as int),
                    decreases a@.len() - i,
                {
                    if a[i].0 != b[i].0 {
                        assert(member_views(a@)[i as int] != member_views(b@)[i as int]);
                        return false;
                    }
                    proof {
                        assert(decreases_to!(*self => (*self)->Object_0));
                        assert(decreases_to!(*a => a@[i as int]));
                    }
                    if !a[i].1.equals(&b[i].1) {
                        assert(member_views(a@)[i as int] != member_views(b@)[i as int]);
                        return false;
                    }
                    i = i + 1;
                    assert(member_views(a@).subrange(0, i as int) =~= member_views(b@).subrange(0, i as int));
                }
                assert(member_views(a@) =~= member_views(a@).subrange(0, i as int));
                assert(member_views(b@) =~= member_views(b@).subrange(0, i as int));
                true
            },
            _ => false,
        }
    }
}

} // verus!
