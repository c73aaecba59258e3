use vstd::prelude::*;

use crate::op::{commands, Op};

verus! {

/// How an instruction changes the loop nesting depth.
pub open spec fn nesting(op: Op) -> int {
    match op {
        Op::IfStart { .. } => 1,
        Op::IfEnd { .. } => -1,
        _ => 0,
    }
}

/// Openers minus closers among the first `i` instructions.
pub open spec fn depth(t: Seq<Op>, i: int) -> int
    decreases i,
{
    if i <= 0 || t.len() < i {
        0
    } else {
        depth(t, i - 1) + nesting(t[i - 1])
    }
}

/// No prefix closes more loops than it opens, and the whole opens as many as it closes.
pub open spec fn balanced(t: Seq<Op>) -> bool {
    &&& forall|i: int| 0 <= i <= t.len() ==> depth(t, i) >= 0
    &&& depth(t, t.len() as int) == 0
}

/// The opener at `i` and the closer at `j` enclose a balanced loop body.
pub open spec fn pairs(t: Seq<Op>, i: int, j: int) -> bool {
    &&& 0 <= i < j < t.len()
    &&& t[i] is IfStart
    &&& t[j] is IfEnd
    &&& depth(t, j + 1) == depth(t, i)
    &&& forall|k: int| i < k <= j ==> depth(t, k) > depth(t, i)
}

/// The jump target an instruction carries.
pub open spec fn target(op: Op) -> Option<usize> {
    match op {
        Op::IfStart { end } => end,
        Op::IfEnd { start } => start,
        _ => None,
    }
}

/// The instruction with its jump target cleared.
pub open spec fn erased(op: Op) -> Op {
    match op {
        Op::IfStart { .. } => Op::IfStart { end: None },
        Op::IfEnd { .. } => Op::IfEnd { start: None },
        _ => op,
    }
}

/// `ops` is the command list `t` with each bracket pointing at its partner.
pub open spec fn compiled(t: Seq<Op>, ops: Seq<Op>) -> bool {
    &&& ops.len() == t.len()
    &&& forall|i: int| 0 <= i < t.len() ==> #[trigger] erased(ops[i]) == erased(t[i])
    &&& forall|i: int|
        0 <= i < t.len() && t[i] is IfStart ==> {
            &&& (#[trigger] target(ops[i])) is Some
            &&& pairs(t, i, target(ops[i]).unwrap() as int)
        }
    &&& forall|i: int|
        0 <= i < t.len() && t[i] is IfEnd ==> {
            &&& (#[trigger] target(ops[i])) is Some
            &&& pairs(t, target(ops[i]).unwrap() as int, i)
        }
}

/// Appending to a command list leaves the depth of its prefixes alone.
pub proof fn lemma_depth_push(t: Seq<Op>, x: Op, i: int)
    requires
        0 <= i <= t.len(),
    ensures
        depth(t.push(x), i) == depth(t, i),
    decreases i,
{
    if i > 0 {
        lemma_depth_push(t, x, i - 1);
    }
}

/// The depth of a prefix does not depend on what follows it.
pub proof fn lemma_depth_prefix(t: Seq<Op>, u: Seq<Op>, i: int)
    requires
        0 <= i <= t.len(),
    ensures
        depth(t + u, i) == depth(t, i),
    decreases i,
{
    if i > 0 {
        lemma_depth_prefix(t, u, i - 1);
        assert((t + u)[i - 1] == t[i - 1]);
    }
}

/// Depth after one more instruction.
pub proof fn lemma_depth_last(t: Seq<Op>, x: Op)
    ensures
        depth(t.push(x), t.len() + 1int) == depth(t, t.len() as int) + nesting(x),
{
    lemma_depth_push(t, x, t.len() as int);
}

/// A pairing found in a prefix survives appending.
pub proof fn lemma_pairs_push(t: Seq<Op>, x: Op, i: int, j: int)
    requires
        pairs(t, i, j),
    ensures
        pairs(t.push(x), i, j),
{
    let u = t.push(x);
    lemma_depth_push(t, x, i);
    lemma_depth_push(t, x, j + 1);
    assert forall|k: int| i < k <= j implies depth(u, k) > depth(u, i) by {
        lemma_depth_push(t, x, k);
    }
}

/// A closer has at most one opener.
pub proof fn lemma_opener_unique(t: Seq<Op>, a: int, b: int, j: int)
    requires
        pairs(t, a, j),
        pairs(t, b, j),
    ensures
        a == b,
{
    if a < b {
        assert(depth(t, b) > depth(t, a));
    } else if b < a {
        assert(depth(t, a) > depth(t, b));
    }
}

/// An opener has at most one closer.
pub proof fn lemma_closer_unique(t: Seq<Op>, i: int, a: int, b: int)
    requires
        pairs(t, i, a),
        pairs(t, i, b),
    ensures
        a == b,
{
    if a < b {
        assert(depth(t, a + 1) > depth(t, i));
    } else if b < a {
        assert(depth(t, b + 1) > depth(t, i));
    }
}

/// How many loop openers a list holds.
pub open spec fn count_starts(t: Seq<Op>) -> nat
    decreases t.len(),
{
    if t.len() == 0 {
        0
    } else {
        count_starts(t.drop_last()) + if t.last() is IfStart {
            1nat
        } else {
            0nat
        }
    }
}

/// How many loop closers a list holds.
pub open spec fn count_ends(t: Seq<Op>) -> nat
    decreases t.len(),
{
    if t.len() == 0 {
        0
    } else {
        count_ends(t.drop_last()) + if t.last() is IfEnd {
            1nat
        } else {
            0nat
        }
    }
}

/// The depth after a whole list is its openers minus its closers.
pub proof fn lemma_depth_counts(t: Seq<Op>)
    ensures
        depth(t, t.len() as int) == count_starts(t) - count_ends(t),
    decreases t.len(),
{
    if t.len() > 0 {
        let p = t.drop_last();
        lemma_depth_counts(p);
        assert(p.push(t.last()) =~= t);
        lemma_depth_last(p, t.last());
    }
}

/// Lists that agree up to jump targets hold as many openers and closers.
pub proof fn lemma_counts_erased(a: Seq<Op>, b: Seq<Op>)
    requires
        a.len() == b.len(),
        forall|i: int| 0 <= i < a.len() ==> #[trigger] erased(a[i]) == erased(b[i]),
    ensures
        count_starts(a) == count_starts(b),
        count_ends(a) == count_ends(b),
    decreases a.len(),
{
    if a.len() > 0 {
        let (pa, pb) = (a.drop_last(), b.drop_last());
        assert forall|i: int| 0 <= i < pa.len() implies #[trigger] erased(pa[i]) == erased(pb[i]) by {
            assert(erased(a[i]) == erased(b[i]));
        }
        lemma_counts_erased(pa, pb);
        assert(erased(a[a.len() - 1]) == erased(b[b.len() - 1]));
    }
}

/// In a compiled balanced program the loop brackets come in equal numbers,
/// and each bracket's target is a bracket of the other kind whose own target
/// points back at it.
pub proof fn lemma_brackets_pair(t: Seq<Op>, ops: Seq<Op>)
    requires
        balanced(t),
        compiled(t, ops),
    ensures
        count_starts(ops) == count_ends(ops),
        forall|i: int|
            0 <= i < ops.len() && ops[i] is IfStart ==> {
                &&& (#[trigger] target(ops[i])) is Some
                &&& target(ops[i]).unwrap() < ops.len()
                &&& ops[target(ops[i]).unwrap() as int] is IfEnd
                &&& target(ops[target(ops[i]).unwrap() as int]) == Some(i as usize)
            },
        forall|j: int|
            0 <= j < ops.len() && ops[j] is IfEnd ==> {
                &&& (#[trigger] target(ops[j])) is Some
                &&& target(ops[j]).unwrap() < ops.len()
                &&& ops[target(ops[j]).unwrap() as int] is IfStart
                &&& target(ops[target(ops[j]).unwrap() as int]) == Some(j as usize)
            },
{
    lemma_depth_counts(t);
    lemma_counts_erased(t, ops);
    assert forall|i: int| 0 <= i < ops.len() && ops[i] is IfStart implies {
        &&& (#[trigger] target(ops[i])) is Some
        &&& target(ops[i]).unwrap() < ops.len()
        &&& ops[target(ops[i]).unwrap() as int] is IfEnd
        &&& target(ops[target(ops[i]).unwrap() as int]) == Some(i as usize)
    } by {
        assert(erased(ops[i]) == erased(t[i]));
        let j = target(ops[i]).unwrap() as int;
        assert(erased(ops[j]) == erased(t[j]));
        let back = target(ops[j]).unwrap() as int;
        lemma_opener_unique(t, i, back, j);
    }
    assert forall|j: int| 0 <= j < ops.len() && ops[j] is IfEnd implies {
        &&& (#[trigger] target(ops[j])) is Some
        &&& target(ops[j]).unwrap() < ops.len()
        &&& ops[target(ops[j]).unwrap() as int] is IfStart
        &&& target(ops[target(ops[j]).unwrap() as int]) == Some(j as usize)
    } by {
        assert(erased(ops[j]) == erased(t[j]));
        let i = target(ops[j]).unwrap() as int;
        assert(erased(ops[i]) == erased(t[i]));
        let fwd = target(ops[i]).unwrap() as int;
        lemma_closer_unique(t, i, j, fwd);
    }
}

/// Compiling a source text can give only one instruction list.
pub proof fn lemma_compile_deterministic(src: Seq<u8>, a: Seq<Op>, b: Seq<Op>)
    requires
        compiled(commands(src), a),
        compiled(commands(src), b),
    ensures
        a == b,
{
    let t = commands(src);
    assert forall|i: int| 0 <= i < a.len() implies a[i] == b[i] by {
        assert(erased(a[i]) == erased(t[i]));
        assert(erased(b[i]) == erased(t[i]));
        if t[i] is IfStart {
            assert(target(a[i]) is Some);
            assert(target(b[i]) is Some);
            lemma_closer_unique(t, i, target(a[i]).unwrap() as int, target(b[i]).unwrap() as int);
        } else if t[i] is IfEnd {
            assert(target(a[i]) is Some);
            assert(target(b[i]) is Some);
            lemma_opener_unique(t, target(a[i]).unwrap() as int, target(b[i]).unwrap() as int, i);
        }
    }
    assert(a =~= b);
}

} // verus!
