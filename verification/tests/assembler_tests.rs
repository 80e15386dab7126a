use bloodhound::assembler::assemble;
use bloodhound::vm::Op;

#[test]
fn roundtrip_source_and_lines() {
    let src = "\
; a program
.globals 4
.memory 8
start:
  push 2
  push 3
  add
  print
  halt
";
    let p = assemble(src).unwrap();
    assert_eq!(p.globals, 4);
    assert_eq!(p.memory, 8);
    assert_eq!(p.code, vec![Op::Push(2), Op::Push(3), Op::Add, Op::Print, Op::Halt]);
    // Instruction addresses map back to the correct 1-based source lines.
    assert_eq!(p.line_of, vec![5, 6, 7, 8, 9]);
    // The `start` label attaches to the first instruction (address 0).
    assert_eq!(p.labels[0].as_deref(), Some("start"));
}

#[test]
fn label_targets_resolve() {
    let src = "\
loop:
  push 0
  jz loop
  halt
";
    let p = assemble(src).unwrap();
    assert_eq!(p.code[1], Op::Jz(0));
}

#[test]
fn call_syntax() {
    let src = "\
  call helper 2 3
  halt
helper:
  ret
";
    let p = assemble(src).unwrap();
    assert_eq!(p.code[0], Op::Call(2, 2, 3));
}

#[test]
fn errors_report_lines() {
    let e = assemble("  push\n").unwrap_err();
    assert_eq!(e.line, 1);
    let e2 = assemble("  jmp nowhere\n  halt\n").unwrap_err();
    assert_eq!(e2.line, 1);
    assert!(e2.message.contains("nowhere"));
}

#[test]
fn disassembly_matches_source_ops() {
    let p = assemble("  push 5\n  neg\n  print\n  halt\n").unwrap();
    let text: Vec<String> = p.code.iter().map(Op::to_string).collect();
    assert_eq!(text, vec!["push 5", "neg", "print", "halt"]);
}
