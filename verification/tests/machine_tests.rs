use bloodhound::vm::{Op, Program, Vm, DEFAULT_GLOBALS, DEFAULT_MEMORY};

fn prog(code: Vec<Op>) -> Program {
    let n = code.len();
    Program {
        code,
        line_of: vec![1; n],
        source: vec!["<test>".to_string()],
        labels: vec![None; n],
        globals: DEFAULT_GLOBALS,
        memory: DEFAULT_MEMORY,
    }
}

#[test]
fn arithmetic_ops() {
    let p = prog(vec![Op::Push(6), Op::Push(7), Op::Mul, Op::Print, Op::Halt]);
    let mut vm = Vm::new(&p);
    while vm.step().is_some() {}
    assert_eq!(vm.output, vec!["42".to_string()]);
}

#[test]
fn div_and_mod_by_zero_are_zero() {
    let p = prog(vec![Op::Push(5), Op::Push(0), Op::Div, Op::Push(5), Op::Push(0), Op::Mod, Op::Halt]);
    let mut vm = Vm::new(&p);
    while vm.step().is_some() {}
    assert_eq!(vm.stack, vec![0, 0]);
}

#[test]
fn globals_and_memory_roundtrip() {
    let p = prog(vec![
        Op::Push(99),
        Op::StoreG(3),
        Op::LoadG(3),
        Op::Push(7),
        Op::Push(123),
        Op::StoreMem, // mem[7] = 123
        Op::Push(7),
        Op::LoadMem,
        Op::Halt,
    ]);
    let mut vm = Vm::new(&p);
    while vm.step().is_some() {}
    assert_eq!(vm.globals[3], 99);
    assert_eq!(vm.memory[7], 123);
    assert_eq!(vm.stack, vec![99, 123]);
}

#[test]
fn call_and_ret_unwind() {
    // main: push 10, call double, print, halt ; double: load0, dup, add, ret
    let p = prog(vec![
        Op::Push(10),      // 0
        Op::Call(5, 1, 1), // 1 -> double
        Op::Print,         // 2
        Op::Halt,          // 3
        Op::Halt,          // 4 padding
        Op::Load(0),       // 5 double
        Op::Dup,           // 6
        Op::Add,           // 7
        Op::Ret,           // 8
    ]);
    let mut vm = Vm::new(&p);
    while vm.step().is_some() {}
    assert_eq!(vm.output, vec!["20".to_string()]);
}

#[test]
fn every_step_is_reversible() {
    let p = prog(vec![
        Op::Push(3),
        Op::Push(4),
        Op::Add,
        Op::StoreG(0),
        Op::LoadG(0),
        Op::Push(2),
        Op::Mul,
        Op::Print,
        Op::Halt,
    ]);
    let mut vm = Vm::new(&p);
    let before = vm.snapshot();
    let u = vm.step().unwrap();
    vm.undo(u);
    assert_eq!(vm.snapshot(), before);
}
