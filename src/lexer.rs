use vstd::prelude::*;

use crate::op::{command_of, commands, decode, lemma_commands_concat, Op};
use crate::pairing::{
    balanced, compiled, depth, erased, lemma_depth_last, lemma_depth_prefix, lemma_depth_push, lemma_pairs_push,
    pairs, target,
};

verus! {

/// Why a source text does not compile.
#[derive(Debug, Clone, Copy, PartialEq, Eq, Structural)]
pub enum CompileError {
    /// A closing bracket without an opener, or an opener never closed.
    UnmatchedBracket,
}

/// Reads commands one at a time from a source text, skipping comment bytes.
pub struct Lexer {
    source: Vec<u8>,
    pos: usize,
}

impl Lexer {
    /// The whole source text.
    pub closed spec fn source(&self) -> Seq<u8> {
        self.source@
    }

    /// How many bytes of the source have been read.
    pub closed spec fn position(&self) -> int {
        self.pos as int
    }

    pub closed spec fn wf(&self) -> bool {
        self.pos <= self.source@.len()
    }

    /// The bytes not read yet.
    pub open spec fn rest(&self) -> Seq<u8> {
        self.source().subrange(self.position(), self.source().len() as int)
    }

    /// A lexer at the start of `source`.
    pub fn new(source: Vec<u8>) -> (r: Lexer)
        ensures
            r.wf(),
            r.source() == source@,
            r.position() == 0,
            r.rest() == source@,
    {
        let r = Lexer { source, pos: 0 };
        assert(r.rest() =~= source@);
        r
    }

    /// The next command of the source, or `None` once no command is left.
    pub fn next(&mut self) -> (r: Option<Op>)
        requires
            old(self).wf(),
        ensures
            final(self).wf(),
            final(self).source() == old(self).source(),
            old(self).position() <= final(self).position(),
            match r {
                None => {
                    &&& final(self).position() == old(self).source().len()
                    &&& commands(old(self).rest()) == Seq::<Op>::empty()
                },
                Some(op) => {
                    &&& old(self).position() < final(self).position()
                    &&& command_of(old(self).source()[final(self).position() - 1]) == Some(op)
                    &&& commands(
                        old(self).source().subrange(
                            old(self).position(),
                            final(self).position() - 1,
                        ),
                    ) == Seq::<Op>::empty()
                    &&& commands(old(self).rest()) == seq![op] + commands(final(self).rest())
                },
            },
    {
        let ghost start = self.pos as int;
        let ghost src = self.source@;
        let len = self.source.len();
        while self.pos < len
            invariant
                self.source@ == src,
                src == old(self).source@,
                start == old(self).pos,
                len == src.len(),
                0 <= start <= self.pos <= len,
                commands(src.subrange(start, self.pos as int)) == Seq::<Op>::empty(),
            decreases len - self.pos,
        {
            let b = self.source[self.pos];
            let ghost before = src.subrange(start, self.pos as int);
            proof {
                let a = src.subrange(start, self.pos as int + 1);
                assert(a.drop_last() =~= before);
            }
            self.pos = self.pos + 1;
            if let Some(op) = decode(b) {
                proof {
                    let tail = src.subrange(self.pos as int, len as int);
                    lemma_commands_concat(before, seq![b]);
                    lemma_commands_concat(before + seq![b], tail);
                    assert(before + seq![b] + tail =~= src.subrange(start, len as int));
                    assert(seq![b] =~= Seq::<u8>::empty().push(b));
                    assert(seq![b].drop_last() =~= Seq::<u8>::empty());
                    assert(seq![b].last() == b);
                    assert(commands(Seq::<u8>::empty()) =~= Seq::<Op>::empty());
                    assert(src.subrange(start, self.pos as int) =~= before + seq![b]);
                    assert(src.subrange(start, self.pos as int - 1) =~= before);
                    assert(src.subrange(self.pos as int, len as int) =~= tail);
                    assert(commands(seq![b]) =~= seq![op]);
                    assert(commands(before + seq![b]) =~= seq![op]);
                }
                return Some(op);
            }
        }
        proof {
            assert(src.subrange(start, self.pos as int) =~= src.subrange(start, len as int));
        }
        None
    }

    /// Compiles the rest of the source: its commands in order, with each
    /// loop bracket pointing at the index of its partner.
    pub fn parse(&mut self) -> (r: Result<Vec<Op>, CompileError>)
        requires
            old(self).wf(),
        ensures
            final(self).wf(),
            final(self).source() == old(self).source(),
            match r {
                Ok(ops) => {
                    &&& balanced(commands(old(self).rest()))
                    &&& compiled(commands(old(self).rest()), ops@)
                    &&& final(self).position() == old(self).source().len()
                },
                Err(e) => {
                    &&& e == CompileError::UnmatchedBracket
                    &&& !balanced(commands(old(self).rest()))
                },
            },
    {
        let ghost all = commands(self.rest());
        let ghost src = self.source@;
        let ghost mut done: Seq<Op> = Seq::empty();
        let mut ops: Vec<Op> = Vec::new();
        let mut stack: Vec<usize> = Vec::new();
        proof {
            assert(done + commands(self.rest()) =~= all);
        }
        loop
            invariant
                self.wf(),
                self.source@ == src,
                src == old(self).source@,
                all == commands(old(self).rest()),
                done + commands(self.rest()) == all,
                ops@.len() == done.len(),
                forall|k: int| 0 <= k <= done.len() ==> depth(done, k) >= 0,
                stack@.len() == depth(done, done.len() as int),
                forall|m: int|
                    0 <= m < stack@.len() ==> {
                        &&& (stack@[m] as int) < done.len()
                        &&& done[stack@[m] as int] is IfStart
                        &&& depth(done, stack@[m] as int) == m
                        &&& forall|k: int|
                            stack@[m] < k <= done.len() ==> depth(done, k) > m
                    },
                forall|i: int| 0 <= i < done.len() ==> #[trigger] erased(ops@[i]) == erased(done[i]),
                forall|i: int|
                    0 <= i < done.len() && done[i] is IfStart ==> {
                        ||| ((#[trigger] target(ops@[i])) is Some && pairs(
                            done,
                            i,
                            target(ops@[i]).unwrap() as int,
                        ))
                        ||| (0 <= depth(done, i) < stack@.len() && stack@[depth(done, i)] == i)
                    },
                forall|i: int|
                    0 <= i < done.len() && done[i] is IfEnd ==> {
                        &&& (#[trigger] target(ops@[i])) is Some
                        &&& pairs(done, target(ops@[i]).unwrap() as int, i)
                    },
            decreases self.source@.len() - self.pos,
        {
            let next = self.next();
            match next {
                None => {
                    proof {
                        assert(done =~= all);
                    }
                    if stack.len() > 0 {
                        return Err(CompileError::UnmatchedBracket);
                    }
                    proof {
                        assert forall|i: int| 0 <= i < all.len() && all[i] is IfStart implies {
                            &&& (#[trigger] target(ops@[i])) is Some
                            &&& pairs(all, i, target(ops@[i]).unwrap() as int)
                        } by {}
                    }
                    return Ok(ops);
                },
                Some(op) => {
                    let ghost old_done = done;
                    let ghost old_stack = stack@;
                    let ghost old_ops = ops@;
                    let ghost d = depth(done, done.len() as int);
                    let i = ops.len();
                    proof {
                        done = done.push(op);
                        lemma_depth_last(old_done, op);
                        assert forall|k: int| 0 <= k <= old_done.len() implies depth(done, k)
                            == depth(old_done, k) by {
                            lemma_depth_push(old_done, op, k);
                        }
                        assert(done + commands(self.rest()) =~= all);
                    }
                    match op {
                        Op::IfStart { .. } => {
                            stack.push(i);
                            ops.push(Op::IfStart { end: None });
                            proof {
                                assert forall|m: int, k: int|
                                    0 <= m < stack@.len() && #[trigger] stack@[m] < k <= done.len()
                                        implies #[trigger] depth(done, k) > m by {
                                    if m < old_stack.len() {
                                        assert(old_stack[m] == stack@[m]);
                                    }
                                }
                                assert forall|i2: int|
                                    0 <= i2 < old_done.len() && old_done[i2] is IfStart implies {
                                    ||| (target(ops@[i2]) is Some && pairs(
                                        done,
                                        i2,
                                        target(ops@[i2]).unwrap() as int,
                                    ))
                                    ||| (0 <= depth(done, i2) < stack@.len() && stack@[depth(
                                        done,
                                        i2,
                                    )] == i2)
                                } by {
                                    assert(ops@[i2] == old_ops[i2]);
                                    assert(done[i2] == old_done[i2]);
                                    if target(old_ops[i2]) is Some && pairs(
                                        old_done,
                                        i2,
                                        target(old_ops[i2]).unwrap() as int,
                                    ) {
                                        lemma_pairs_push(
                                            old_done,
                                            op,
                                            i2,
                                            target(ops@[i2]).unwrap() as int,
                                        );
                                    } else {
                                        assert(stack@[depth(old_done, i2)] == old_stack[depth(
                                            old_done,
                                            i2,
                                        )]);
                                    }
                                }
                                assert forall|i2: int|
                                    0 <= i2 < old_done.len() && old_done[i2] is IfEnd implies pairs(
                                    done,
                                    target(ops@[i2]).unwrap() as int,
                                    i2,
                                ) by {
                                    assert(ops@[i2] == old_ops[i2]);
                                    lemma_pairs_push(
                                        old_done,
                                        op,
                                        target(ops@[i2]).unwrap() as int,
                                        i2,
                                    );
                                }
                            }
                        },
                        Op::IfEnd { .. } => {
                            if stack.len() == 0 {
                                proof {
                                    lemma_depth_prefix(
                                        done,
                                        commands(self.rest()),
                                        done.len() as int,
                                    );
                                    assert(depth(all, done.len() as int) < 0);
                                }
                                return Err(CompileError::UnmatchedBracket);
                            }
                            let a = stack.pop().unwrap();
                            ops.set(a, Op::IfStart { end: Some(i) });
                            ops.push(Op::IfEnd { start: Some(a) });
                            proof {
                                assert(old_stack[d - 1] == a);
                                assert(pairs(done, a as int, i as int));
                                assert forall|i2: int|
                                    0 <= i2 < old_done.len() && old_done[i2] is IfStart
                                        && i2 != a implies {
                                    ||| (target(ops@[i2]) is Some && pairs(
                                        done,
                                        i2,
                                        target(ops@[i2]).unwrap() as int,
                                    ))
                                    ||| (0 <= depth(done, i2) < stack@.len() && stack@[depth(
                                        done,
                                        i2,
                                    )] == i2)
                                } by {
                                    assert(ops@[i2] == old_ops[i2]);
                                    assert(done[i2] == old_done[i2]);
                                    if target(old_ops[i2]) is Some && pairs(
                                        old_done,
                                        i2,
                                        target(old_ops[i2]).unwrap() as int,
                                    ) {
                                        lemma_pairs_push(
                                            old_done,
                                            op,
                                            i2,
                                            target(ops@[i2]).unwrap() as int,
                                        );
                                    } else {
                                        assert(stack@[depth(old_done, i2)] == old_stack[depth(
                                            old_done,
                                            i2,
                                        )]);
                                    }
                                }
                                assert forall|i2: int|
                                    0 <= i2 < old_done.len() && old_done[i2] is IfEnd implies pairs(
                                    done,
                                    target(ops@[i2]).unwrap() as int,
                                    i2,
                                ) by {
                                    assert(ops@[i2] == old_ops[i2]);
                                    lemma_pairs_push(
                                        old_done,
                                        op,
                                        target(old_ops[i2]).unwrap() as int,
                                        i2,
                                    );
                                }
                            }
                        },
                        _ => {
                            ops.push(op);
                            proof {
                                assert forall|i2: int|
                                    0 <= i2 < old_done.len() && old_done[i2] is IfStart implies {
                                    ||| (target(ops@[i2]) is Some && pairs(
                                        done,
                                        i2,
                                        target(ops@[i2]).unwrap() as int,
                                    ))
                                    ||| (0 <= depth(done, i2) < stack@.len() && stack@[depth(
                                        done,
                                        i2,
                                    )] == i2)
                                } by {
                                    assert(ops@[i2] == old_ops[i2]);
                                    assert(done[i2] == old_done[i2]);
                                    if target(old_ops[i2]) is Some && pairs(
                                        old_done,
                                        i2,
                                        target(old_ops[i2]).unwrap() as int,
                                    ) {
                                        lemma_pairs_push(
                                            old_done,
                                            op,
                                            i2,
                                            target(ops@[i2]).unwrap() as int,
                                        );
                                    } else {
                                        assert(stack@[depth(old_done, i2)] == old_stack[depth(
                                            old_done,
                                            i2,
                                        )]);
                                    }
                                }
                                assert forall|i2: int|
                                    0 <= i2 < old_done.len() && old_done[i2] is IfEnd implies pairs(
                                    done,
                                    target(ops@[i2]).unwrap() as int,
                                    i2,
                                ) by {
                                    assert(ops@[i2] == old_ops[i2]);
                                    lemma_pairs_push(
                                        old_done,
                                        op,
                                        target(old_ops[i2]).unwrap() as int,
                                        i2,
                                    );
                                }
                            }
                        },
                    }
                },
            }
        }
    }
}

/// Compiles a whole source text.
pub fn compile(source: Vec<u8>) -> (r: Result<Vec<Op>, CompileError>)
    ensures
        match r {
            Ok(ops) => balanced(commands(source@)) && compiled(commands(source@), ops@),
            Err(e) => e == CompileError::UnmatchedBracket && !balanced(commands(source@)),
        },
{
    let mut lexer = Lexer::new(source);
    lexer.parse()
}

} // verus!
