use vstd::prelude::*;
use crate::patch::{Op, OpModel, Patch, path_view, ops_view};

verus! {

/// An operation with `s` put in front of each of its paths.
pub open spec fn prefix_op(s: Seq<Seq<char>>, op: OpModel) -> OpModel {
    match op {
        OpModel::Add(p, x) => OpModel::Add(s + p, x),
        OpModel::Remove(p) => OpModel::Remove(s + p),
        OpModel::Replace(p, x) => OpModel::Replace(s + p, x),
        OpModel::Copy(p, f) => OpModel::Copy(s + p, s + f),
        OpModel::Move(p, f) => OpModel::Move(s + p, s + f),
        OpModel::Test(p, x) => OpModel::Test(s + p, x),
    }
}

/// Operations with `s` put in front of each of their paths.
pub open spec fn prefix_ops(s: Seq<Seq<char>>, ops: Seq<OpModel>) -> Seq<OpModel> {
    Seq::new(ops.len(), |i: int| prefix_op(s, ops[i]))
}

fn prefixed(prefix: &[String], p: &Vec<String>) -> (r: Vec<String>)
    ensures
        path_view(r@) == path_view(prefix@) + path_view(p@),
{
    let mut out: Vec<String> = Vec::new();
    let mut i: usize = 0;
    while i < prefix.len()
        invariant
            i <= prefix@.len(),
            path_view(out@) =~= path_view(prefix@).subrange(0, i as int),
        decreases prefix@.len() - i,
    {
        let ghost before = out@;
        assert(path_view(before).len() == before.len());
        out.push(prefix[i].clone());
        assert(path_view(out@) =~= path_view(before).push(prefix@[i as int]@));
        i = i + 1;
    }
    let mut j: usize = 0;
    while j < p.len()
        invariant
            i == prefix@.len(),
            j <= p@.len(),
            path_view(out@) =~= path_view(prefix@) + path_view(p@).subrange(0, j as int),
        decreases p@.len() - j,
    {
        let ghost before = out@;
        assert(path_view(before).len() == before.len());
        out.push(p[j].clone());
        assert(path_view(out@) =~= path_view(before).push(p@[j as int]@));
        j = j + 1;
    }
    assert(path_view(p@).subrange(0, j as int) =~= path_view(p@));
    out
}

fn prefix_op_exec(prefix: &[String], op: &Op) -> (r: Op)
    ensures
        r@ == prefix_op(path_view(prefix@), op@),
{
    match op {
        Op::Add(p, x) => Op::Add(prefixed(prefix, p), x.deep_copy()),
        Op::Remove(p) => Op::Remove(prefixed(prefix, p)),
        Op::Replace(p, x) => Op::Replace(prefixed(prefix, p), x.deep_copy()),
        Op::Copy(p, f) => Op::Copy(prefixed(prefix, p), prefixed(prefix, f)),
        Op::Move(p, f) => Op::Move(prefixed(prefix, p), prefixed(prefix, f)),
        Op::Test(p, x) => Op::Test(prefixed(prefix, p), x.deep_copy()),
    }
}

/// The patch with `prefix` put in front of every path it holds, the paths of
/// moves and copies read from included, so that a patch written for a part of
/// a document addresses that part in the whole document.
pub fn prefix_patch_paths(prefix: &[String], patch: Patch) -> (r: Patch)
    ensures
        r@ == prefix_ops(path_view(prefix@), patch@),
{
    let mut ops: Vec<Op> = Vec::new();
    let mut i: usize = 0;
    while i < patch.ops.len()
        invariant
            i <= patch.ops@.len(),
            ops_view(ops@) =~= prefix_ops(path_view(prefix@), patch@).subrange(0, i as int),
        decreases patch.ops@.len() - i,
    {
        let op = prefix_op_exec(prefix, &patch.ops[i]);
        let ghost before = ops@;
        assert(ops_view(before).len() == before.len());
        ops.push(op);
        assert(ops_view(ops@) =~= ops_view(before).push(op@));
        i = i + 1;
    }
    assert(prefix_ops(path_view(prefix@), patch@).subrange(0, i as int) =~= prefix_ops(path_view(prefix@), patch@));
    Patch { ops }
}

/// Putting no prefix in front of the paths leaves the operations as they are.
pub proof fn lemma_empty_prefix(ops: Seq<OpModel>)
    ensures
        prefix_ops(Seq::empty(), ops) == ops,
{
    assert forall|i: int| 0 <= i < ops.len() implies #[trigger] prefix_ops(Seq::empty(), ops)[i] == ops[i] by {
        match ops[i] {
            OpModel::Add(p, x) => { assert(Seq::<Seq<char>>::empty() + p =~= p); },
            OpModel::Remove(p) => { assert(Seq::<Seq<char>>::empty() + p =~= p); },
            OpModel::Replace(p, x) => { assert(Seq::<Seq<char>>::empty() + p =~= p); },
            OpModel::Copy(p, f) => {
                assert(Seq::<Seq<char>>::empty() + p =~= p);
                assert(Seq::<Seq<char>>::empty() + f =~= f);
            },
            OpModel::Move(p, f) => {
                assert(Seq::<Seq<char>>::empty() + p =~= p);
                assert(Seq::<Seq<char>>::empty() + f =~= f);
            },
            OpModel::Test(p, x) => { assert(Seq::<Seq<char>>::empty() + p =~= p); },
        }
    }
    assert(prefix_ops(Seq::empty(), ops) =~= ops);
}

} // verus!
