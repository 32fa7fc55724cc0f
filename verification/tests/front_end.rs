use bfjit::error::Error;
use bfjit::ir::{self, compile, IR};
use bfjit::opcode::{self, tokens, Opcode};

#[test]
fn command_bytes_round_trip() {
    let all = [
        (b'>', Opcode::SHR),
        (b'<', Opcode::SHL),
        (b'+', Opcode::ADD),
        (b'-', Opcode::SUB),
        (b'.', Opcode::PUTCHAR),
        (b',', Opcode::GETCHAR),
        (b'[', Opcode::LB),
        (b']', Opcode::RB),
    ];
    for (b, op) in all {
        assert!(Opcode::accepts(b));
        assert_eq!(Opcode::from(b), op);
        assert_eq!(op.byte(), b);
    }
}

#[test]
fn other_bytes_are_not_commands() {
    let mut n = 0;
    for b in 0u8..=255 {
        if Opcode::accepts(b) {
            n += 1;
        }
    }
    assert_eq!(n, 8);
    assert!(!Opcode::accepts(b'a'));
    assert!(!Opcode::accepts(b' '));
    assert!(!Opcode::accepts(0));
}

#[test]
fn tokenizer_drops_comments_and_keeps_order() {
    let t = tokens(&b"add + then - and\nmove > < out . in , [loop]".to_vec());
    assert_eq!(
        t,
        vec![
            Opcode::ADD,
            Opcode::SUB,
            Opcode::SHR,
            Opcode::SHL,
            Opcode::PUTCHAR,
            Opcode::GETCHAR,
            Opcode::LB,
            Opcode::RB
        ]
    );
    assert_eq!(tokens(&Vec::new()), Vec::<Opcode>::new());
    assert_eq!(tokens(&b"hello".to_vec()), Vec::<Opcode>::new());
}

#[test]
fn jump_table_pairs_nested_loops() {
    let c = opcode::Code::from(b"[[]]".to_vec()).unwrap();
    assert_eq!(c.instrs.len(), 4);
    assert_eq!(c.jtable.len(), 4);
    assert_eq!(c.jtable[&0], 3);
    assert_eq!(c.jtable[&3], 0);
    assert_eq!(c.jtable[&1], 2);
    assert_eq!(c.jtable[&2], 1);
}

#[test]
fn jump_table_pairs_sibling_loops_in_comments() {
    let c = opcode::Code::from(b"+ [ - ] x [ > ]".to_vec()).unwrap();
    assert_eq!(
        c.instrs,
        vec![Opcode::ADD, Opcode::LB, Opcode::SUB, Opcode::RB, Opcode::LB, Opcode::SHR, Opcode::RB]
    );
    assert_eq!(c.jtable.len(), 4);
    assert_eq!(c.jtable[&1], 3);
    assert_eq!(c.jtable[&3], 1);
    assert_eq!(c.jtable[&4], 6);
    assert_eq!(c.jtable[&6], 4);
}

#[test]
fn jump_table_is_an_involution_between_opens_and_closes() {
    let c = opcode::Code::from(b"+[->+<[-]][[.],[[]]]>[]".to_vec()).unwrap();
    let mut loops = 0;
    for (i, op) in c.instrs.iter().enumerate() {
        match op {
            Opcode::LB => {
                let j = c.jtable[&i];
                assert!(j > i);
                assert_eq!(c.instrs[j], Opcode::RB);
                assert_eq!(c.jtable[&j], i);
                loops += 1;
            }
            Opcode::RB => {
                let j = c.jtable[&i];
                assert!(j < i);
                assert_eq!(c.instrs[j], Opcode::LB);
                assert_eq!(c.jtable[&j], i);
            }
            _ => assert!(!c.jtable.contains_key(&i)),
        }
    }
    assert_eq!(loops, 7);
    assert_eq!(c.jtable.len(), 14);
}

#[test]
fn program_without_loops_has_an_empty_table() {
    let c = opcode::Code::from(b"+-><.,".to_vec()).unwrap();
    assert_eq!(c.instrs.len(), 6);
    assert!(c.jtable.is_empty());
}

#[test]
fn unmatched_close_is_unbalanced() {
    assert_eq!(opcode::Code::from(b"]".to_vec()).err(), Some(Error::UnbalancedLoop));
    assert_eq!(opcode::Code::from(b"+[-]]".to_vec()).err(), Some(Error::UnbalancedLoop));
    assert_eq!(opcode::Code::from(b"][".to_vec()).err(), Some(Error::UnbalancedLoop));
}

#[test]
fn pending_open_is_unbalanced() {
    assert_eq!(opcode::Code::from(b"[".to_vec()).err(), Some(Error::UnbalancedLoop));
    assert_eq!(opcode::Code::from(b"[[-]".to_vec()).err(), Some(Error::UnbalancedLoop));
    assert_eq!(opcode::Code::from(b"+[>[<]".to_vec()).err(), Some(Error::UnbalancedLoop));
}

#[test]
fn error_has_a_message() {
    assert_eq!(Error::UnbalancedLoop.message(), "unbalanced loop");
}

#[test]
fn identical_commands_fold_into_one_instruction() {
    assert_eq!(compile(b"+++".to_vec()).unwrap().instrs, vec![IR::ADD(3)]);
    assert_eq!(compile(b"-----".to_vec()).unwrap().instrs, vec![IR::SUB(5)]);
    assert_eq!(compile(b">>>>".to_vec()).unwrap().instrs, vec![IR::SHR(4)]);
    assert_eq!(compile(b"<<".to_vec()).unwrap().instrs, vec![IR::SHL(2)]);
    assert_eq!(compile(b"+".to_vec()).unwrap().instrs, vec![IR::ADD(1)]);
    assert_eq!(compile(vec![b'>'; 1000]).unwrap().instrs, vec![IR::SHR(1000)]);
}

#[test]
fn folding_stops_at_a_kind_boundary() {
    assert_eq!(
        compile(b"++-->><<+".to_vec()).unwrap().instrs,
        vec![IR::ADD(2), IR::SUB(2), IR::SHR(2), IR::SHL(2), IR::ADD(1)]
    );
    assert_eq!(
        compile(b"+-+-".to_vec()).unwrap().instrs,
        vec![IR::ADD(1), IR::SUB(1), IR::ADD(1), IR::SUB(1)]
    );
}

#[test]
fn comments_do_not_split_a_run() {
    assert_eq!(compile(b"+ + x +".to_vec()).unwrap().instrs, vec![IR::ADD(3)]);
}

#[test]
fn io_and_loop_tokens_are_never_folded() {
    assert_eq!(
        compile(b"..,,".to_vec()).unwrap().instrs,
        vec![IR::PUTCHAR, IR::PUTCHAR, IR::GETCHAR, IR::GETCHAR]
    );
    assert_eq!(
        compile(b"[[]]".to_vec()).unwrap().instrs,
        vec![IR::JIZ(3), IR::JIZ(2), IR::JNZ(1), IR::JNZ(0)]
    );
}

#[test]
fn cell_counts_wrap_at_256() {
    assert_eq!(compile(vec![b'+'; 255]).unwrap().instrs, vec![IR::ADD(255)]);
    assert_eq!(compile(vec![b'+'; 256]).unwrap().instrs, vec![IR::ADD(0)]);
    assert_eq!(compile(vec![b'+'; 257]).unwrap().instrs, vec![IR::ADD(1)]);
    assert_eq!(compile(vec![b'-'; 256]).unwrap().instrs, vec![IR::SUB(0)]);
    assert_eq!(compile(vec![b'-'; 600]).unwrap().instrs, vec![IR::SUB(88)]);
}

#[test]
fn shift_counts_do_not_wrap_at_256() {
    assert_eq!(compile(vec![b'>'; 256]).unwrap().instrs, vec![IR::SHR(256)]);
    assert_eq!(compile(vec![b'<'; 70000]).unwrap().instrs, vec![IR::SHL(70000)]);
}

#[test]
fn jumps_point_at_their_partner_instruction() {
    assert_eq!(
        compile(b"+[-]".to_vec()).unwrap().instrs,
        vec![IR::ADD(1), IR::JIZ(3), IR::SUB(1), IR::JNZ(1)]
    );
    assert_eq!(
        compile(b">[-]<[->+<]".to_vec()).unwrap().instrs,
        vec![
            IR::SHR(1),
            IR::JIZ(3),
            IR::SUB(1),
            IR::JNZ(1),
            IR::SHL(1),
            IR::JIZ(10),
            IR::SUB(1),
            IR::SHR(1),
            IR::ADD(1),
            IR::SHL(1),
            IR::JNZ(5)
        ]
    );
}

#[test]
fn targets_are_instruction_indices_not_token_indices() {
    assert_eq!(
        compile(b"+++++[>>>>+<<<<-----]".to_vec()).unwrap().instrs,
        vec![
            IR::ADD(5),
            IR::JIZ(6),
            IR::SHR(4),
            IR::ADD(1),
            IR::SHL(4),
            IR::SUB(5),
            IR::JNZ(1)
        ]
    );
}

#[test]
fn folding_from_tokens_matches_compiling_from_source() {
    let src = b"+[->+<[-]]..".to_vec();
    let a = ir::Code::from(tokens(&src)).unwrap();
    let b = compile(src).unwrap();
    assert_eq!(a.instrs, b.instrs);
}

#[test]
fn empty_source_compiles_to_nothing() {
    assert_eq!(compile(Vec::new()).unwrap().instrs, Vec::<IR>::new());
    assert_eq!(compile(b"no commands here".to_vec()).unwrap().instrs, Vec::<IR>::new());
}

#[test]
fn unbalanced_source_does_not_compile() {
    assert_eq!(compile(b"[".to_vec()).err(), Some(Error::UnbalancedLoop));
    assert_eq!(compile(b"]".to_vec()).err(), Some(Error::UnbalancedLoop));
    assert_eq!(compile(b"+[[-]".to_vec()).err(), Some(Error::UnbalancedLoop));
    assert_eq!(compile(b"+[-]]".to_vec()).err(), Some(Error::UnbalancedLoop));
    assert_eq!(
        ir::Code::from(vec![Opcode::RB, Opcode::LB]).err(),
        Some(Error::UnbalancedLoop)
    );
}
