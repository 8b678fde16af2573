use nbf::codegen::{CodeGen, CodeGenError, CodeGenerator, StaticMemory};
use nbf::machine::{Command, DebugCmd, ExecError, ExecutionContext};

/// A minimal independent interpreter for the 8-symbol alphabet, used as a
/// reference against direct command-tree execution.
fn reference_interpret(program: &str, input: &[u32]) -> Vec<u32> {
    let code: Vec<char> = program.chars().collect();
    let mut tape: Vec<u32> = vec![0];
    let mut pos: usize = 0;
    let mut pc: usize = 0;
    let mut inp: usize = 0;
    let mut out: Vec<u32> = Vec::new();
    while pc < code.len() {
        match code[pc] {
            '+' => tape[pos] = tape[pos].wrapping_add(1),
            '-' => tape[pos] = tape[pos].wrapping_sub(1),
            '>' => {
                pos += 1;
                if pos >= tape.len() {
                    tape.push(0);
                }
            }
            '<' => {
                if pos > 0 {
                    pos -= 1;
                }
            }
            '.' => out.push(tape[pos]),
            ',' => {
                tape[pos] = if inp < input.len() {
                    inp += 1;
                    input[inp - 1]
                } else {
                    0
                };
            }
            '[' => {
                if tape[pos] == 0 {
                    let mut depth = 1;
                    while depth > 0 {
                        pc += 1;
                        if code[pc] == '[' {
                            depth += 1;
                        } else if code[pc] == ']' {
                            depth -= 1;
                        }
                    }
                }
            }
            ']' => {
                if tape[pos] != 0 {
                    let mut depth = 1;
                    while depth > 0 {
                        pc -= 1;
                        if code[pc] == ']' {
                            depth += 1;
                        } else if code[pc] == '[' {
                            depth -= 1;
                        }
                    }
                }
            }
            _ => panic!("unexpected symbol"),
        }
        pc += 1;
    }
    out
}

fn sum_program() -> Command {
    let mut gen = CodeGen::new(16);
    let mut a = gen.static_alloc().unwrap();
    let mut b = gen.static_alloc().unwrap();
    gen.read(&a);
    gen.read(&b);
    gen.add(&mut a, &mut b).unwrap();
    gen.print(&a);
    gen.compile_nbf()
}

fn sum_and_rhs_program() -> Command {
    let mut gen = CodeGen::new(16);
    let mut a = gen.static_alloc().unwrap();
    let mut b = gen.static_alloc().unwrap();
    gen.read(&a);
    gen.read(&b);
    gen.add(&mut a, &mut b).unwrap();
    gen.print(&a);
    gen.print(&b);
    gen.compile_nbf()
}

fn fibonacci_program() -> Command {
    let mut gen = CodeGen::new(100);
    let mut n = gen.static_alloc().unwrap();
    let mut a = gen.static_alloc().unwrap();
    let mut b = gen.static_alloc().unwrap();
    let mut temp = gen.static_alloc().unwrap();
    gen.read(&n);
    gen.add_const(&mut a, 1);
    let mut body = gen.begin_while_neq0(&n);
    body.set(&mut temp, &mut a).unwrap();
    body.add(&mut a, &mut b).unwrap();
    body.set(&mut b, &mut temp).unwrap();
    body.dec(&mut n);
    gen.end_while_neq0(body, &n);
    gen.print(&b);
    gen.compile_nbf()
}

#[test]
fn alloc_exhausts_then_reuses_ascending() {
    let mut gen = CodeGen::new(3);
    let a = gen.static_alloc().unwrap();
    let b = gen.static_alloc().unwrap();
    let c = gen.static_alloc().unwrap();
    assert_eq!(a.slot(), 0);
    assert_eq!(b.slot(), 1);
    assert_eq!(c.slot(), 2);
    assert!(matches!(gen.static_alloc(), Err(CodeGenError::Oom)));
    // Free in a scrambled order; reuse still hands out ascending slots.
    gen.static_free(b);
    gen.static_free(c);
    gen.static_free(a);
    assert_eq!(gen.static_alloc().unwrap().slot(), 0);
    assert_eq!(gen.static_alloc().unwrap().slot(), 1);
    assert_eq!(gen.static_alloc().unwrap().slot(), 2);
    assert!(gen.static_alloc().is_err());
}

#[test]
fn static_memory_alloc_free_roundtrip() {
    let mut mem = StaticMemory::new(2);
    let a = mem.allocate().unwrap();
    assert_eq!(a.slot(), 0);
    let b = mem.allocate().unwrap();
    assert_eq!(b.slot(), 1);
    assert!(matches!(mem.allocate(), Err(CodeGenError::Oom)));
    mem.free(a);
    mem.free(b);
    let again = mem.allocate().unwrap();
    assert_eq!(again.slot(), 0);
}

#[test]
fn empty_pool_is_immediately_exhausted() {
    let mut gen = CodeGen::new(0);
    assert!(matches!(gen.static_alloc(), Err(CodeGenError::Oom)));
}

#[test]
fn add_computes_wrapping_sum_and_restores_rhs() {
    let program = sum_and_rhs_program();
    assert_eq!(program.run(&[3, 4]).unwrap(), vec![7, 4]);
    assert_eq!(program.run(&[0, 0]).unwrap(), vec![0, 0]);
    assert_eq!(program.run(&[u32::MAX, 1]).unwrap(), vec![0, 1]);
    assert_eq!(program.run(&[u32::MAX, 5]).unwrap(), vec![4, 5]);
}

#[test]
fn set_copies_without_consuming_source() {
    let mut gen = CodeGen::new(16);
    let mut a = gen.static_alloc().unwrap();
    let mut b = gen.static_alloc().unwrap();
    gen.read(&a);
    gen.read(&b);
    gen.set(&mut a, &mut b).unwrap();
    gen.print(&a);
    gen.print(&b);
    let program = gen.compile_nbf();
    assert_eq!(program.run(&[3, 9]).unwrap(), vec![9, 9]);
    assert_eq!(program.run(&[42, 0]).unwrap(), vec![0, 0]);
}

#[test]
fn while_neq0_runs_body_exactly_k_times() {
    let mut gen = CodeGen::new(8);
    let mut k = gen.static_alloc().unwrap();
    let mut tally = gen.static_alloc().unwrap();
    gen.read(&k);
    let mut body = gen.begin_while_neq0(&k);
    body.inc(&mut tally);
    body.dec(&mut k);
    gen.end_while_neq0(body, &k);
    gen.print(&tally);
    gen.print(&k);
    let program = gen.compile_nbf();
    assert_eq!(program.run(&[5]).unwrap(), vec![5, 0]);
    assert_eq!(program.run(&[0]).unwrap(), vec![0, 0]);
    assert_eq!(program.run(&[1]).unwrap(), vec![1, 0]);
}

#[test]
fn sum_program_end_to_end() {
    let program = sum_program();
    assert_eq!(program.run(&[3, 4]).unwrap(), vec![7]);
    assert_eq!(program.run(&[0, 0]).unwrap(), vec![0]);
}

#[test]
fn fibonacci_program_end_to_end() {
    let program = fibonacci_program();
    // The emitted `add` moves cell values one unit at a time, so running the
    // program costs on the order of fib(i) machine steps: indices are kept
    // small enough to interpret quickly.
    let mut a: u32 = 1;
    let mut b: u32 = 0;
    for i in 0..25u32 {
        assert_eq!(program.run(&[i]).unwrap(), vec![b], "fibonacci index {}", i);
        let next = a.wrapping_add(b);
        b = a;
        a = next;
    }
}

#[test]
fn rendering_matches_direct_execution_on_reference_interpreter() {
    let program = sum_and_rhs_program();
    let text = program.to_brainfuck();
    for input in [[3u32, 4u32], [0, 0], [u32::MAX, 7]] {
        assert_eq!(reference_interpret(&text, &input), program.run(&input).unwrap());
    }

    let fib = fibonacci_program();
    let fib_text = fib.to_brainfuck();
    for i in [0u32, 1, 2, 3, 7, 12] {
        assert_eq!(reference_interpret(&fib_text, &[i]), fib.run(&[i]).unwrap());
    }
}

#[test]
fn compile_brainfuck_renders_the_alphabet() {
    let mut gen = CodeGen::new(4);
    let mut a = gen.static_alloc().unwrap();
    gen.add_const(&mut a, 3);
    gen.print(&a);
    // Slot 0 from position 0: no move is emitted, assertions are erased.
    assert_eq!(gen.compile_brainfuck(), "+++.");
}

#[test]
fn to_repr_marks_assertions() {
    let mut gen = CodeGen::new(4);
    let mut a = gen.static_alloc().unwrap();
    gen.add_const(&mut a, 2);
    let program = gen.compile_nbf();
    assert_eq!(program.to_repr(), "#++");
    assert_eq!(program.to_brainfuck(), "++");
}

#[test]
fn zero_clears_any_starting_value() {
    let mut gen = CodeGen::new(4);
    let mut a = gen.static_alloc().unwrap();
    gen.read(&a);
    gen.zero(&mut a);
    gen.print(&a);
    let program = gen.compile_nbf();
    assert_eq!(program.run(&[123456]).unwrap(), vec![0]);
    assert_eq!(program.run(&[0]).unwrap(), vec![0]);
}

#[test]
fn reading_past_input_yields_zero() {
    let mut gen = CodeGen::new(4);
    let a = gen.static_alloc().unwrap();
    gen.read(&a);
    gen.print(&a);
    let program = gen.compile_nbf();
    assert_eq!(program.run(&[]).unwrap(), vec![0]);
}

#[test]
fn failed_position_assertion_aborts_loudly() {
    let program = Command::Debug(DebugCmd::AssertPosition(5));
    assert_eq!(program.run(&[]), Err(ExecError::PositionMismatch));
}

#[test]
fn oom_fails_the_whole_composite() {
    // One slot: `add` cannot allocate its temporary.
    let mut gen = CodeGen::new(2);
    let mut a = gen.static_alloc().unwrap();
    let mut b = gen.static_alloc().unwrap();
    assert!(matches!(gen.add(&mut a, &mut b), Err(CodeGenError::Oom)));
}

#[test]
fn execution_context_moves_clamp_and_extend() {
    let mut ctx = ExecutionContext::new(&[]);
    ctx.move_left();
    assert_eq!(ctx.position_value(), 0);
    ctx.move_i(3);
    assert_eq!(ctx.position_value(), 3);
    ctx.move_i(-10);
    assert_eq!(ctx.position_value(), 0);
    ctx.add(-1);
    assert_eq!(*ctx.get_tape(), u32::MAX);
    ctx.add(2);
    assert_eq!(*ctx.get_tape(), 1);
}

#[test]
fn execution_context_consumes_input_in_order() {
    let mut ctx = ExecutionContext::new(&[10, 20]);
    assert_eq!(ctx.get_input(), 10);
    ctx.read();
    assert_eq!(*ctx.get_tape(), 20);
    assert_eq!(ctx.get_input(), 0);
}
