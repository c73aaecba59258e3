use bf::lexer::{compile, CompileError, Lexer};
use bf::machine::{Event, Machine, RuntimeError, DEFAULT_TAPE_LEN};
use bf::op::{decode, Op};

fn run_source(src: &str, fuel: u64) -> (Vec<u8>, Result<bool, RuntimeError>) {
    let ops = compile(src.as_bytes().to_vec()).expect("compiles");
    let mut m = Machine::new(DEFAULT_TAPE_LEN);
    m.run(&ops, fuel)
}

#[test]
fn decode_maps_the_commands() {
    assert_eq!(decode(b'>'), Some(Op::Right));
    assert_eq!(decode(b'<'), Some(Op::Left));
    assert_eq!(decode(b'['), Some(Op::IfStart { end: None }));
    assert_eq!(decode(b']'), Some(Op::IfEnd { start: None }));
    assert_eq!(decode(b'.'), Some(Op::Output));
    assert_eq!(decode(b'+'), Some(Op::Inc));
    assert_eq!(decode(b'-'), Some(Op::Dec));
    assert_eq!(decode(b' '), None);
    assert_eq!(decode(b'a'), None);
    assert_eq!(decode(b','), None);
}

#[test]
fn lexer_skips_comments() {
    let mut lexer = Lexer::new(b"a+ b\n-x".to_vec());
    assert_eq!(lexer.next(), Some(Op::Inc));
    assert_eq!(lexer.next(), Some(Op::Dec));
    assert_eq!(lexer.next(), None);
    assert_eq!(lexer.next(), None);
}

#[test]
fn comment_only_source_compiles_to_nothing_and_halts() {
    let ops = compile(b"hello, world! this has no commands\n".to_vec()).unwrap();
    assert!(ops.is_empty());
    let mut m = Machine::new(DEFAULT_TAPE_LEN);
    assert_eq!(m.step(&ops), Ok(Event::Halted));
    assert_eq!(m.run(&ops, 5), (vec![], Ok(true)));
}

#[test]
fn empty_source_compiles_to_nothing() {
    assert_eq!(compile(Vec::new()), Ok(vec![]));
}

#[test]
fn stray_closer_is_rejected() {
    assert_eq!(compile(b"]".to_vec()), Err(CompileError::UnmatchedBracket));
    assert_eq!(compile(b"+[]]".to_vec()), Err(CompileError::UnmatchedBracket));
}

#[test]
fn unclosed_opener_is_rejected() {
    assert_eq!(compile(b"[".to_vec()), Err(CompileError::UnmatchedBracket));
    assert_eq!(compile(b"[[]".to_vec()), Err(CompileError::UnmatchedBracket));
}

#[test]
fn empty_loop_compiles_to_two_paired_instructions() {
    let ops = compile(b"[]".to_vec()).unwrap();
    assert_eq!(
        ops,
        vec![Op::IfStart { end: Some(1) }, Op::IfEnd { start: Some(0) }]
    );
}

#[test]
fn nested_loops_pair_with_their_partners() {
    let ops = compile(b"+[>[-]<-]".to_vec()).unwrap();
    assert_eq!(
        ops,
        vec![
            Op::Inc,
            Op::IfStart { end: Some(8) },
            Op::Right,
            Op::IfStart { end: Some(5) },
            Op::Dec,
            Op::IfEnd { start: Some(3) },
            Op::Left,
            Op::Dec,
            Op::IfEnd { start: Some(1) },
        ]
    );
    let starts = ops.iter().filter(|o| matches!(o, Op::IfStart { .. })).count();
    let ends = ops.iter().filter(|o| matches!(o, Op::IfEnd { .. })).count();
    assert_eq!(starts, ends);
}

#[test]
fn compiling_twice_gives_the_same_list() {
    let src = b"++[>+<-]>.[[]]".to_vec();
    assert_eq!(compile(src.clone()), compile(src));
}

#[test]
fn decrement_wraps_below_zero() {
    let ops = vec![Op::Dec, Op::Output];
    let mut m = Machine::new(1);
    assert_eq!(m.run(&ops, 10), (vec![255], Ok(true)));
}

#[test]
fn increment_wraps_above_255() {
    let ops = vec![Op::Dec, Op::Inc, Op::Output];
    let mut m = Machine::new(1);
    assert_eq!(m.step(&ops), Ok(Event::Ran));
    assert_eq!(m.step(&ops), Ok(Event::Ran));
    assert_eq!(m.step(&ops), Ok(Event::Emitted(0)));
    assert_eq!(m.step(&ops), Ok(Event::Halted));
}

#[test]
fn two_increments_then_output() {
    assert_eq!(run_source("++.", 100), (vec![2], Ok(true)));
}

#[test]
fn countdown_loop_halts_silently_at_zero() {
    assert_eq!(run_source("+[-]", 100), (vec![], Ok(true)));
    assert_eq!(run_source("+[-].", 100), (vec![0], Ok(true)));
}

#[test]
fn hello_world() {
    let src = "++++++++[>++++[>++>+++>+++>+<<<<-]>+>+>->>+[<]<-]>>.>---.+++++++..+++.>>.<-.<.+++.------.--------.>>+.>++.";
    assert_eq!(run_source(src, 100_000), (b"Hello World!\n".to_vec(), Ok(true)));
}

#[test]
fn output_is_raw_bytes() {
    let src = "-.";
    assert_eq!(run_source(src, 100), (vec![255], Ok(true)));
}

#[test]
fn moving_left_of_the_first_cell_fails() {
    assert_eq!(run_source("+.<.", 100), (vec![1], Err(RuntimeError::TapeUnderflow)));
}

#[test]
fn moving_right_of_the_last_cell_fails() {
    let ops = compile(b">>".to_vec()).unwrap();
    let mut m = Machine::new(2);
    assert_eq!(m.step(&ops), Ok(Event::Ran));
    assert_eq!(m.step(&ops), Err(RuntimeError::TapeOverflow));
    assert_eq!(m.step(&ops), Err(RuntimeError::TapeOverflow));
}

#[test]
fn unresolved_bracket_is_corrupt() {
    let ops = vec![Op::IfStart { end: None }];
    let mut m = Machine::new(DEFAULT_TAPE_LEN);
    assert_eq!(m.step(&ops), Err(RuntimeError::CorruptProgram));
    let ops = vec![Op::Inc, Op::IfEnd { start: Some(7) }];
    let mut m = Machine::new(DEFAULT_TAPE_LEN);
    assert_eq!(m.run(&ops, 10), (vec![], Err(RuntimeError::CorruptProgram)));
}

#[test]
fn endless_loop_stops_when_fuel_runs_out() {
    assert_eq!(run_source("+[].", 50), (vec![], Ok(false)));
}

#[test]
fn last_cell_is_reachable() {
    let ops = compile(b">+.".to_vec()).unwrap();
    let mut m = Machine::new(2);
    assert_eq!(m.run(&ops, 10), (vec![1], Ok(true)));
}

#[test]
fn countdown_leaves_the_cell_at_zero() {
    let ops = compile(b"+[-]".to_vec()).unwrap();
    let mut m = Machine::new(DEFAULT_TAPE_LEN);
    assert_eq!(m.run(&ops, 100), (vec![], Ok(true)));
    assert_eq!(m.current_cell(), 0);
    assert_eq!(m.data_pointer(), 0);
    assert_eq!(m.instruction_pointer(), 4);
}

#[test]
fn fresh_machine_starts_at_zero() {
    let m = Machine::new(3);
    assert_eq!(m.current_cell(), 0);
    assert_eq!(m.data_pointer(), 0);
    assert_eq!(m.instruction_pointer(), 0);
}

#[test]
fn loop_is_skipped_on_a_zero_cell() {
    let ops = compile(b"[+]+.".to_vec()).unwrap();
    let mut m = Machine::new(1);
    assert_eq!(m.step(&ops), Ok(Event::Ran));
    assert_eq!(m.instruction_pointer(), 3);
    assert_eq!(m.run(&ops, 10), (vec![1], Ok(true)));
}
