use bfjit::error::Error;
use bfjit::ir::{compile, Code, IR};
use bfjit::jit::{plan, Emit};
use bfjit::machine::{add_wrapping, land, partner, sub_wrapping, Event, Interpreter};
use bfjit::opcode::Opcode;

fn drive(m: &mut Interpreter, code: &Code, input: &[u8]) -> (Vec<u8>, usize) {
    let mut out = Vec::new();
    let mut read = 0;
    let mut steps = 0;
    loop {
        match m.step(code) {
            Event::Halted => return (out, steps),
            Event::Advanced => {}
            Event::Output(b) => out.push(b),
            Event::Input => {
                m.store(input[read]);
                read += 1;
            }
            Event::Exhausted => panic!("tape exhausted"),
        }
        steps += 1;
        assert!(steps < 1_000_000);
    }
}

fn run(src: &[u8], input: &[u8]) -> (Vec<u8>, Vec<u8>) {
    let code = compile(src.to_vec()).unwrap();
    let mut m = Interpreter::new();
    let (out, _) = drive(&mut m, &code, input);
    (out, m.tape().clone())
}

#[test]
fn new_machine_has_one_zero_cell() {
    let m = Interpreter::new();
    assert_eq!(m.tape(), &vec![0u8]);
    assert_eq!(m.pc(), 0);
    assert_eq!(m.sp(), 0);
    assert_eq!(m.cell(), 0);
}

#[test]
fn two_increments_then_output_writes_two() {
    let (out, _) = run(b"++.", b"");
    assert_eq!(out, vec![2u8]);
}

#[test]
fn clearing_loop_runs_once_and_leaves_zero() {
    let code = compile(b"+[-]".to_vec()).unwrap();
    let mut m = Interpreter::new();
    let (out, steps) = drive(&mut m, &code, b"");
    assert!(out.is_empty());
    assert_eq!(m.cell(), 0);
    assert_eq!(m.tape(), &vec![0u8]);
    // ADD, JIZ (not taken), SUB, JNZ (not taken): the body ran exactly once.
    assert_eq!(steps, 4);
    assert_eq!(m.pc(), 4);
}

#[test]
fn unmatched_open_fails_before_any_execution() {
    assert_eq!(compile(b"+.[".to_vec()).err(), Some(Error::UnbalancedLoop));
}

#[test]
fn cell_copy_moves_the_value_and_clears_the_source() {
    let code = compile(b">[-]<[->+<]".to_vec()).unwrap();
    let mut m = Interpreter::new();
    m.store(7);
    let (out, _) = drive(&mut m, &code, b"");
    assert!(out.is_empty());
    assert_eq!(m.tape(), &vec![0u8, 7]);
    assert_eq!(m.sp(), 0);
}

#[test]
fn cell_copy_overwrites_a_dirty_destination() {
    let (_, tape) = run(b"+++++>++++<>[-]<[->+<]", b"");
    assert_eq!(tape, vec![0u8, 5]);
}

#[test]
fn same_program_gives_same_output_twice() {
    let src = b"++++++++[>++++++++<-]>+.+.+.>,.";
    let a = run(src, b"z");
    let b = run(src, b"z");
    assert_eq!(a.0, vec![65u8, 66, 67, b'z']);
    assert_eq!(a, b);
}

#[test]
fn cell_wraps_after_256_increments() {
    let mut src = vec![b'+'; 255];
    let (_, tape) = run(&src, b"");
    assert_eq!(tape, vec![255u8]);
    src.extend_from_slice(b"><+");
    let (_, tape) = run(&src, b"");
    assert_eq!(tape, vec![0u8, 0]);
    let (_, tape) = run(&vec![b'+'; 256], b"");
    assert_eq!(tape, vec![0u8]);
}

#[test]
fn decrement_of_zero_wraps_to_255() {
    let (out, tape) = run(b"-.--.", b"");
    assert_eq!(out, vec![255u8, 253]);
    assert_eq!(tape, vec![253u8]);
}

#[test]
fn add_and_sub_use_the_folded_count() {
    let code = Code { instrs: vec![IR::ADD(200), IR::ADD(100), IR::PUTCHAR, IR::SUB(50), IR::PUTCHAR] };
    let mut m = Interpreter::new();
    let (out, _) = drive(&mut m, &code, b"");
    assert_eq!(out, vec![44u8, 250]);
}

#[test]
fn moving_right_grows_the_tape_with_zero_cells() {
    let code = compile(b">>>+".to_vec()).unwrap();
    let mut m = Interpreter::new();
    assert_eq!(m.step(&code), Event::Advanced);
    assert_eq!(m.tape(), &vec![0u8, 0, 0, 0]);
    assert_eq!(m.sp(), 3);
    assert_eq!(m.step(&code), Event::Advanced);
    assert_eq!(m.tape(), &vec![0u8, 0, 0, 1]);
    assert_eq!(m.step(&code), Event::Halted);
    assert_eq!(m.step(&code), Event::Halted);
    assert_eq!(m.pc(), 2);
}

#[test]
fn moving_left_stops_at_the_first_cell() {
    let (_, tape) = run(b"<<<+>>+<<<<+", b"");
    assert_eq!(tape, vec![2u8, 0, 1]);
}

#[test]
fn moving_within_the_tape_keeps_its_length() {
    let (_, tape) = run(b">>>><<+", b"");
    assert_eq!(tape, vec![0u8, 0, 1, 0, 0]);
}

#[test]
fn input_is_stored_in_the_current_cell() {
    let (out, tape) = run(b",>,<.>.", b"hi");
    assert_eq!(out, b"hi".to_vec());
    assert_eq!(tape, b"hi".to_vec());
}

#[test]
fn step_reports_what_the_host_must_do() {
    let code = compile(b"+.,".to_vec()).unwrap();
    let mut m = Interpreter::new();
    assert_eq!(m.step(&code), Event::Advanced);
    assert_eq!(m.step(&code), Event::Output(1));
    assert_eq!(m.step(&code), Event::Input);
    m.store(9);
    assert_eq!(m.cell(), 9);
    assert_eq!(m.pc(), 3);
    assert_eq!(m.step(&code), Event::Halted);
}

#[test]
fn loop_is_skipped_when_the_cell_is_zero() {
    let code = compile(b"[+.]-".to_vec()).unwrap();
    let mut m = Interpreter::new();
    assert_eq!(m.step(&code), Event::Advanced);
    assert_eq!(m.pc(), 4);
    assert_eq!(m.step(&code), Event::Advanced);
    assert_eq!(m.cell(), 255);
}

#[test]
fn loop_repeats_while_the_cell_is_not_zero() {
    let (out, tape) = run(b"+++[.-]", b"");
    assert_eq!(out, vec![3u8, 2, 1]);
    assert_eq!(tape, vec![0u8]);
}

#[test]
fn jump_outside_the_program_ends_it() {
    let code = Code { instrs: vec![IR::JIZ(40), IR::ADD(1)] };
    let mut m = Interpreter::new();
    assert_eq!(m.step(&code), Event::Advanced);
    assert_eq!(m.pc(), 2);
    assert_eq!(m.step(&code), Event::Halted);
    assert_eq!(m.cell(), 0);
}

#[test]
fn multiplication_program_prints_a_letter() {
    let (out, _) = run(b"++++++++[>+++++++++<-]>.", b"");
    assert_eq!(out, vec![72u8]);
}

#[test]
fn plan_has_one_unit_per_instruction() {
    let code = compile(b"+[-]>><.,".to_vec()).unwrap();
    assert_eq!(
        plan(&code).unwrap(),
        vec![
            Emit::Add(1),
            Emit::Open(1),
            Emit::Sub(1),
            Emit::Close(1),
            Emit::Right(2),
            Emit::Left(1),
            Emit::Output,
            Emit::Input
        ]
    );
}

#[test]
fn plan_closes_the_loop_opened_last() {
    let code = compile(b"[[][]]".to_vec()).unwrap();
    assert_eq!(
        plan(&code).unwrap(),
        vec![
            Emit::Open(0),
            Emit::Open(1),
            Emit::Close(1),
            Emit::Open(3),
            Emit::Close(3),
            Emit::Close(0)
        ]
    );
}

#[test]
fn plan_agrees_with_the_jump_targets() {
    let code = compile(b"+[>[-]+[->+<]<-]".to_vec()).unwrap();
    let p = plan(&code).unwrap();
    assert_eq!(p.len(), code.instrs.len());
    for (k, ir) in code.instrs.iter().enumerate() {
        match ir {
            IR::JIZ(_) => assert_eq!(p[k], Emit::Open(k)),
            IR::JNZ(t) => assert_eq!(p[k], Emit::Close(*t as usize)),
            _ => {}
        }
    }
}

#[test]
fn plan_rejects_unbalanced_jumps() {
    assert_eq!(plan(&Code { instrs: vec![IR::JNZ(0)] }).err(), Some(Error::UnbalancedLoop));
    assert_eq!(plan(&Code { instrs: vec![IR::JIZ(0)] }).err(), Some(Error::UnbalancedLoop));
    assert_eq!(
        plan(&Code { instrs: vec![IR::JIZ(1), IR::JNZ(0), IR::JNZ(0)] }).err(),
        Some(Error::UnbalancedLoop)
    );
}

#[test]
fn plan_of_an_empty_program_is_empty() {
    assert_eq!(plan(&Code { instrs: Vec::new() }).unwrap(), Vec::<Emit>::new());
}

fn drive_tokens(m: &mut Interpreter, code: &bfjit::opcode::Code, input: &[u8]) -> Vec<u8> {
    let mut out = Vec::new();
    let mut read = 0;
    let mut steps = 0;
    loop {
        match m.step_tokens(code) {
            Event::Halted => return out,
            Event::Advanced => {}
            Event::Output(b) => out.push(b),
            Event::Input => {
                m.store(input[read]);
                read += 1;
            }
            Event::Exhausted => panic!("tape exhausted"),
        }
        steps += 1;
        assert!(steps < 1_000_000);
    }
}

#[test]
fn token_machine_follows_the_jump_table() {
    let code = bfjit::opcode::Code::from(b"[+.]-".to_vec()).unwrap();
    let mut m = Interpreter::new();
    assert_eq!(m.step_tokens(&code), Event::Advanced);
    assert_eq!(m.pc(), 4);
    assert_eq!(m.step_tokens(&code), Event::Advanced);
    assert_eq!(m.cell(), 255);
    assert_eq!(m.step_tokens(&code), Event::Halted);
}

#[test]
fn token_machine_and_folded_machine_agree() {
    let src = b"++++++++[>++++++++<-]>+.+.<<<,.>>>>+<[->+<]>.";
    let tokens = bfjit::opcode::Code::from(src.to_vec()).unwrap();
    let mut a = Interpreter::new();
    let out_a = drive_tokens(&mut a, &tokens, b"q");
    let folded = compile(src.to_vec()).unwrap();
    let mut b = Interpreter::new();
    let (out_b, _) = drive(&mut b, &folded, b"q");
    assert_eq!(out_a, vec![65u8, 66, b'q', 1]);
    assert_eq!(out_a, out_b);
    assert_eq!(a.tape(), b.tape());
    assert_eq!(a.sp(), b.sp());
}

#[test]
fn token_machine_grows_the_tape_one_cell_at_a_time() {
    let code = bfjit::opcode::Code::from(b">>+<<<-".to_vec()).unwrap();
    let mut m = Interpreter::new();
    assert!(drive_tokens(&mut m, &code, b"").is_empty());
    assert_eq!(m.tape(), &vec![255u8, 0, 1]);
    assert_eq!(m.sp(), 0);
}

#[test]
fn lowering_gives_the_program_and_its_plan() {
    let (code, units) = bfjit::jit::lower(b"+[>,.<-]".to_vec()).unwrap();
    assert_eq!(
        code.instrs,
        vec![
            IR::ADD(1),
            IR::JIZ(7),
            IR::SHR(1),
            IR::GETCHAR,
            IR::PUTCHAR,
            IR::SHL(1),
            IR::SUB(1),
            IR::JNZ(1)
        ]
    );
    assert_eq!(
        units,
        vec![
            Emit::Add(1),
            Emit::Open(1),
            Emit::Right(1),
            Emit::Input,
            Emit::Output,
            Emit::Left(1),
            Emit::Sub(1),
            Emit::Close(1)
        ]
    );
}

#[test]
fn lowering_refuses_an_unbalanced_source() {
    assert_eq!(bfjit::jit::lower(b"+[".to_vec()).err(), Some(Error::UnbalancedLoop));
    assert_eq!(bfjit::jit::lower(b"+]".to_vec()).err(), Some(Error::UnbalancedLoop));
}

#[test]
fn cell_arithmetic_is_modulo_256() {
    assert_eq!(add_wrapping(255, 1), 0);
    assert_eq!(add_wrapping(200, 100), 44);
    assert_eq!(add_wrapping(0, 0), 0);
    assert_eq!(add_wrapping(255, 255), 254);
    assert_eq!(sub_wrapping(0, 1), 255);
    assert_eq!(sub_wrapping(5, 5), 0);
    assert_eq!(sub_wrapping(10, 255), 11);
    for c in 0u8..=255 {
        for x in [0u8, 1, 127, 128, 255] {
            assert_eq!(add_wrapping(c, x), c.wrapping_add(x));
            assert_eq!(sub_wrapping(c, x), c.wrapping_sub(x));
        }
    }
}

#[test]
fn taken_jump_lands_after_its_target() {
    assert_eq!(land(3, 10), 4);
    assert_eq!(land(9, 10), 10);
    assert_eq!(land(10, 10), 10);
    assert_eq!(land(u32::MAX, 10), 10);
    assert_eq!(land(0, 0), 0);
}

#[test]
fn partner_reads_the_jump_table() {
    let code = bfjit::opcode::Code::from(b"+[[-]>]".to_vec()).unwrap();
    assert_eq!(partner(&code, 1), 6);
    assert_eq!(partner(&code, 6), 1);
    assert_eq!(partner(&code, 2), 4);
    assert_eq!(partner(&code, 4), 2);
}

#[test]
fn instruction_kind_is_the_command_it_folds() {
    assert_eq!(IR::SHR(3).kind(), Opcode::SHR);
    assert_eq!(IR::SHL(1).kind(), Opcode::SHL);
    assert_eq!(IR::ADD(0).kind(), Opcode::ADD);
    assert_eq!(IR::SUB(9).kind(), Opcode::SUB);
    assert_eq!(IR::PUTCHAR.kind(), Opcode::PUTCHAR);
    assert_eq!(IR::GETCHAR.kind(), Opcode::GETCHAR);
    assert_eq!(IR::JIZ(2).kind(), Opcode::LB);
    assert_eq!(IR::JNZ(0).kind(), Opcode::RB);
}

#[test]
fn default_machine_is_a_new_machine() {
    let m = Interpreter::default();
    assert_eq!(m.tape(), &vec![0u8]);
    assert_eq!(m.pc(), 0);
    assert_eq!(m.sp(), 0);
}
