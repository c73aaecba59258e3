use vstd::prelude::*;

verus! {

/// One instruction of the language. Loop brackets carry the index of their
/// partner once the compiler has paired them.
#[derive(Debug, Clone, Copy, PartialEq, Eq, Structural)]
pub enum Op {
    Left,
    Right,
    IfStart { end: Option<usize> },
    IfEnd { start: Option<usize> },
    Output,
    Inc,
    Dec,
}

/// The command that a source byte stands for, if any; every other byte is a comment.
pub open spec fn command_of(b: u8) -> Option<Op> {
    if b == 0x3e {
        Some(Op::Right)
    } else if b == 0x3c {
        Some(Op::Left)
    } else if b == 0x5b {
        Some(Op::IfStart { end: None })
    } else if b == 0x5d {
        Some(Op::IfEnd { start: None })
    } else if b == 0x2e {
        Some(Op::Output)
    } else if b == 0x2b {
        Some(Op::Inc)
    } else if b == 0x2d {
        Some(Op::Dec)
    } else {
        None
    }
}

/// The commands of a source text, in order, with its comments dropped.
pub open spec fn commands(s: Seq<u8>) -> Seq<Op>
    decreases s.len(),
{
    if s.len() == 0 {
        Seq::empty()
    } else {
        let rest = commands(s.drop_last());
        match command_of(s.last()) {
            Some(op) => rest.push(op),
            None => rest,
        }
    }
}

/// Dropping comments distributes over concatenation of source texts.
pub proof fn lemma_commands_concat(a: Seq<u8>, b: Seq<u8>)
    ensures
        commands(a + b) == commands(a) + commands(b),
    decreases b.len(),
{
    if b.len() == 0 {
        assert(a + b =~= a);
        assert(commands(b) =~= Seq::<Op>::empty());
        assert(commands(a) + commands(b) =~= commands(a));
    } else {
        lemma_commands_concat(a, b.drop_last());
        assert((a + b).drop_last() =~= a + b.drop_last());
        assert((a + b).last() == b.last());
        match command_of(b.last()) {
            Some(op) => {
                assert(commands(a) + commands(b.drop_last()).push(op) =~= (commands(a)
                    + commands(b.drop_last())).push(op));
            },
            None => {},
        }
    }
}

/// Decodes one source byte.
pub fn decode(b: u8) -> (r: Option<Op>)
    ensures
        r == command_of(b),
{
    if b == 0x3e {
        Some(Op::Right)
    } else if b == 0x3c {
        Some(Op::Left)
    } else if b == 0x5b {
        Some(Op::IfStart { end: None })
    } else if b == 0x5d {
        Some(Op::IfEnd { start: None })
    } else if b == 0x2e {
        Some(Op::Output)
    } else if b == 0x2b {
        Some(Op::Inc)
    } else if b == 0x2d {
        Some(Op::Dec)
    } else {
        None
    }
}

} // verus!
