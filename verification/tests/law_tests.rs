//! The laws of the library on concrete values, and the text of every error.

use bloodhound::arith::{
    cell_index, difference, divide, modulo, negation, product, read, sum, truth_value,
};
use bloodhound::assembler::{assemble, AsmError, MAX_DATA_CELLS};
use bloodhound::console::{render, try_dispatch, try_respond};
use bloodhound::debugger::{Debugger, StopReason, WatchHit, WatchLoc};
use bloodhound::expr::{EvalCtx, Expr};
use bloodhound::samples;
use bloodhound::vm::{Op, Program, Vm};

fn hand_built(code: Vec<Op>) -> Program {
    let n = code.len();
    Program {
        code,
        line_of: vec![1; n],
        source: vec!["<test>".to_string()],
        labels: vec![None; n],
        globals: 2,
        memory: 4,
    }
}

#[test]
fn arithmetic_is_total_and_wraps() {
    assert_eq!(sum(i64::MAX, 1), i64::MIN);
    assert_eq!(difference(i64::MIN, 1), i64::MAX);
    assert_eq!(product(i64::MAX, 2), -2);
    assert_eq!(negation(i64::MIN), i64::MIN);
    assert_eq!(negation(5), -5);
    for (a, b) in [(7, 2), (-7, 2), (7, -2), (-7, -2), (i64::MIN, -1), (i64::MIN, 1), (0, 3)] {
        assert_eq!(divide(a, b), a.wrapping_div(b));
        assert_eq!(modulo(a, b), a.wrapping_rem(b));
    }
    assert_eq!(divide(9, 0), 0);
    assert_eq!(modulo(9, 0), 0);
    for (addr, len) in [(0i64, 8usize), (7, 8), (8, 8), (-1, 8), (-8, 8), (-9, 8), (i64::MIN, 7)] {
        assert_eq!(cell_index(addr, len), addr.rem_euclid(len as i64) as usize);
    }
    assert_eq!(cell_index(5, 0), 0);
    assert_eq!(read(&[4, 5], 1), 5);
    assert_eq!(read(&[4, 5], 2), 0);
    assert_eq!(truth_value(true), 1);
    assert_eq!(truth_value(false), 0);
}

#[test]
fn every_opcode_is_undone() {
    let all = [
        Op::Push(-3), Op::Pop, Op::Dup, Op::Add, Op::Sub, Op::Mul, Op::Div, Op::Mod, Op::Neg,
        Op::Lt, Op::Gt, Op::Le, Op::Ge, Op::Eq, Op::Ne, Op::Load(1), Op::Store(1), Op::Store(99),
        Op::LoadG(1), Op::StoreG(1), Op::StoreG(99), Op::LoadMem, Op::StoreMem, Op::Jmp(0),
        Op::Jz(0), Op::Jnz(0), Op::Call(0, 2, 3), Op::Call(0, 5, 1), Op::Ret, Op::Print, Op::Halt,
    ];
    for op in all {
        for stack in [vec![], vec![6], vec![6, 0], vec![-9, 2, 3]] {
            let mut vm = Vm::new(&hand_built(vec![op]));
            vm.stack = stack.clone();
            let before = vm.snapshot();
            let record = vm.step().expect("one step");
            vm.undo(record);
            assert_eq!(vm.snapshot(), before, "{op:?} on {stack:?}");
        }
    }
}

#[test]
fn every_opcode_has_its_effect() {
    let run = |code: Vec<Op>| {
        let mut vm = Vm::new(&hand_built(code));
        while vm.step().is_some() {}
        vm
    };
    let binary = |a: i64, b: i64, op: Op| run(vec![Op::Push(a), Op::Push(b), op]).stack;
    assert_eq!(binary(7, 2, Op::Add), vec![9]);
    assert_eq!(binary(7, 2, Op::Sub), vec![5]);
    assert_eq!(binary(7, 2, Op::Mul), vec![14]);
    assert_eq!(binary(-7, 2, Op::Div), vec![-3]);
    assert_eq!(binary(-7, 2, Op::Mod), vec![-1]);
    assert_eq!(binary(1, 2, Op::Lt), vec![1]);
    assert_eq!(binary(1, 2, Op::Gt), vec![0]);
    assert_eq!(binary(2, 2, Op::Le), vec![1]);
    assert_eq!(binary(1, 2, Op::Ge), vec![0]);
    assert_eq!(binary(2, 2, Op::Eq), vec![1]);
    assert_eq!(binary(2, 2, Op::Ne), vec![0]);
    assert_eq!(run(vec![Op::Push(4), Op::Neg]).stack, vec![-4]);
    assert_eq!(run(vec![Op::Push(4), Op::Dup]).stack, vec![4, 4]);
    assert_eq!(run(vec![Op::Push(4), Op::Pop]).stack, Vec::<i64>::new());
    assert_eq!(run(vec![Op::Dup]).stack, vec![0, 0]);
    assert_eq!(run(vec![Op::Push(8), Op::Store(7), Op::Load(7), Op::Load(8)]).stack, vec![8, 0]);
    assert_eq!(run(vec![Op::Push(8), Op::StoreG(1), Op::LoadG(1), Op::LoadG(2)]).stack, vec![8, 0]);
    let vm = run(vec![Op::Push(-1), Op::Push(5), Op::StoreMem, Op::Push(3), Op::LoadMem]);
    assert_eq!(vm.memory, vec![0, 0, 0, 5]);
    assert_eq!(vm.stack, vec![5]);
    assert_eq!(run(vec![Op::Push(0), Op::Jz(3), Op::Push(1), Op::Push(2)]).stack, vec![2]);
    assert_eq!(run(vec![Op::Push(0), Op::Jnz(3), Op::Push(1), Op::Push(2)]).stack, vec![1, 2]);
    assert_eq!(run(vec![Op::Jmp(2), Op::Push(1), Op::Push(2)]).stack, vec![2]);
    let vm = run(vec![Op::Push(1), Op::Push(2), Op::Call(4, 2, 3), Op::Halt, Op::Halt]);
    assert_eq!(vm.depth(), 2);
    assert_eq!(vm.frames[1].locals, vec![1, 2, 0]);
    assert_eq!(vm.frames[1].func, "fn@4");
    assert_eq!(vm.frames[1].return_pc, 3);
    assert_eq!(vm.frames[1].stack_base, 0);
    assert_eq!(vm.frames[1].call_line, 1);
    assert_eq!(vm.local(1), 2);
    assert_eq!(vm.local(9), 0);
    let vm = run(vec![Op::Push(-6), Op::Print, Op::Ret]);
    assert_eq!(vm.output, vec!["-6".to_string()]);
    assert!(vm.halted);
    assert_eq!(vm.pc, 2);
    assert_eq!(vm.stack, vec![0]);
    assert_eq!(vm.current_op(), None);
}

#[test]
fn a_machine_starts_empty() {
    let mut p = hand_built(vec![Op::Halt]);
    p.globals = 0;
    p.memory = 0;
    let vm = Vm::new(&p);
    assert_eq!((vm.globals.len(), vm.memory.len()), (1, 1));
    assert_eq!(vm.frames[0].func, "main");
    assert_eq!(vm.frames[0].return_pc, usize::MAX);
    assert_eq!(vm.frames[0].locals, vec![0; 8]);
    assert_eq!(vm.current_op(), Some(&Op::Halt));
    assert_eq!(p.line_at(0), 1);
    assert_eq!(p.line_at(1), 0);
    assert!(p.fits());
    p.code = vec![Op::Call(0, 0, usize::MAX)];
    assert!(!p.fits());
    p.code = vec![Op::Call(0, usize::MAX, 0)];
    assert!(!p.fits());
    p.code = vec![Op::Halt];
    p.memory = usize::MAX;
    assert!(!p.fits());
    p.memory = 1;
    p.globals = usize::MAX;
    assert!(!p.fits());
}

#[test]
fn programs_move_up_to_a_call_that_does_not_fit() {
    let huge = Op::Call(0, 0, usize::MAX);
    let code = vec![Op::Push(1), Op::StoreG(0), Op::Push(2), huge, Op::Halt];
    let p = hand_built(code.clone());
    assert!(p.loads());
    assert!(!p.fits());
    let mut d = Debugger::new(p.clone());
    for k in 0..3 {
        assert_eq!(d.step_count(), k);
        assert!(d.next_fits());
        assert!(d.forward());
    }
    assert!(!d.next_fits());
    let before_call = d.snapshot();
    assert_eq!(before_call.stack, vec![2]);
    // Nothing goes past the call, and everything else still works.
    assert_eq!(d.try_cont(), None);
    assert_eq!(d.try_step_line(), None);
    assert_eq!(d.try_step_over(), None);
    assert_eq!(d.try_step_out(), None);
    assert_eq!(d.try_goto(4), None);
    assert_eq!(d.try_goto(usize::MAX), None);
    assert_eq!((d.step_count(), d.snapshot()), (3, before_call.clone()));
    assert_eq!(d.goto(1), StopReason::Stepped);
    assert_eq!(d.try_goto(4), None);
    assert_eq!((d.step_count(), d.snapshot()), (3, before_call.clone()));
    assert_eq!(d.run_back(), StopReason::Start);
    assert_eq!(d.goto(3), StopReason::Stepped);
    assert_eq!(d.snapshot(), before_call);
    // A stop before the call is reached as ever.
    d.reset();
    d.add_watch(WatchLoc::Global(0));
    let hit = WatchHit { loc: WatchLoc::Global(0), old: 0, new: 1, step: 2 };
    assert_eq!(d.cont(), StopReason::Watchpoint(hit));
    assert_eq!(d.try_cont(), None);
    d.reset();
    d.add_break(2);
    assert_eq!(d.try_cont(), Some(StopReason::Watchpoint(hit)));
    assert!(d.remove_watch(WatchLoc::Global(0)));
    d.reset();
    assert_eq!(d.try_cont(), Some(StopReason::Breakpoint(2)));
    // A call that is never reached does not matter, even in an endless program.
    let mut d = Debugger::new(hand_built(vec![Op::Push(1), Op::Halt, huge]));
    assert_eq!(d.cont(), StopReason::Halted);
    assert_eq!(d.step_count(), 2);
    let mut d = Debugger::new(hand_built(vec![Op::Jmp(0), huge]));
    assert_eq!(d.try_goto(1000), Some(StopReason::Stepped));
    assert!(Vm::new(&hand_built(code)).next_fits());
    assert!(!Vm::new(&hand_built(vec![huge])).next_fits());
    assert!(Vm::new(&hand_built(vec![])).next_fits());
    let mut p = p;
    p.memory = usize::MAX;
    assert!(!p.loads());
}

#[test]
fn commands_are_held_up_before_a_call_that_does_not_fit() {
    let src = format!("push 1\npush 2\ncall 0 0 {}\nhalt\n", usize::MAX);
    let mut d = Debugger::new(assemble(&src).unwrap());
    assert_eq!(try_dispatch(&mut d, "si").map(|r| r.text), Some(render(&d)));
    assert_eq!(d.step_count(), 1);
    for line in ["c", "out", "goto 3", "goto 9"] {
        d.goto(1);
        assert!(try_dispatch(&mut d, line).is_none(), "{line}");
        assert_eq!(d.step_count(), 2, "{line}");
    }
    for line in ["s", "n", "si"] {
        assert!(try_respond(&mut d, line).is_none(), "{line}");
        assert_eq!(d.step_count(), 2, "{line}");
    }
    for line in ["", "  ", "p", "bt", "bp 2", "rc", "reset", "goto 2", "goto", "c if +", "help"] {
        assert!(try_respond(&mut d, line).is_some(), "{line}");
    }
    assert_eq!(d.step_count(), 2);
    d.program.globals = usize::MAX;
    assert!(try_respond(&mut d, "reset").is_none());
    assert_eq!(d.step_count(), 2);
    assert_eq!(d.snapshot().stack, vec![1, 2]);
}

#[test]
fn instructions_change_what_they_name() {
    for (_, src) in samples::ALL {
        let p = assemble(src).unwrap();
        let mut vm = Vm::new(&p);
        while let Some(op) = vm.current_op().copied() {
            let s = vm.snapshot();
            vm.step().unwrap();
            let t = vm.snapshot();
            assert_eq!(t.frames[0].func, "main");
            assert_eq!((t.globals.len(), t.memory.len()), (p.globals.max(1), p.memory.max(1)));
            for i in 0..t.globals.len() {
                assert!(t.globals[i] == s.globals[i] || op == Op::StoreG(i));
            }
            for i in 0..t.memory.len() {
                assert!(t.memory[i] == s.memory[i] || op == Op::StoreMem);
            }
            assert_eq!(t.output.len(), s.output.len() + usize::from(op == Op::Print));
            let enters = matches!(op, Op::Call(..));
            let leaves = op == Op::Ret && s.frames.len() > 1;
            assert_eq!(
                t.frames.len() + usize::from(leaves),
                s.frames.len() + usize::from(enters),
            );
        }
    }
}

#[test]
fn instruction_texts_assemble_back() {
    let code = vec![
        Op::Push(i64::MIN), Op::Push(0), Op::Pop, Op::Dup, Op::Add, Op::Sub, Op::Mul, Op::Div,
        Op::Mod, Op::Neg, Op::Lt, Op::Gt, Op::Le, Op::Ge, Op::Eq, Op::Ne, Op::Load(7),
        Op::Store(0), Op::LoadG(12), Op::StoreG(3), Op::LoadMem, Op::StoreMem, Op::Jmp(29),
        Op::Jz(0), Op::Jnz(5), Op::Call(4, 2, 3), Op::Ret, Op::Print, Op::Halt,
    ];
    let src: String = code.iter().map(|op| op.to_string() + "\n").collect();
    let p = assemble(&src).unwrap();
    assert_eq!(p.code, code);
    assert_eq!(p.line_of, (1..=code.len() as u32).collect::<Vec<_>>());
    assert_eq!(Op::Call(4, 2, 3).to_string(), "call 4 2 3");
    assert_eq!(Op::Push(-7).to_string(), "push -7");
}

#[test]
fn assembled_programs_are_in_order() {
    for (_, src) in samples::ALL {
        let p = assemble(src).unwrap();
        assert_eq!(p.code.len(), p.line_of.len());
        assert_eq!(p.code.len(), p.labels.len());
        assert!(p.line_of.windows(2).all(|w| w[0] < w[1]));
        assert_eq!(p.source, src.lines().collect::<Vec<_>>());
        for (op, line) in p.code.iter().zip(&p.line_of) {
            let text = &p.source[*line as usize - 1];
            assert!(text.trim().starts_with(op.to_string().split(' ').next().unwrap()));
        }
    }
    let p = assemble("a:\nb:\n  jmp b ; back\r\n  call a 0 0\nend:\n").unwrap();
    assert_eq!(p.code, vec![Op::Jmp(0), Op::Call(0, 0, 0)]);
    assert_eq!(p.labels, vec![Some("b".to_string()), None]);
    assert_eq!((p.globals, p.memory), (16, 64));
    assert_eq!(p.source[2], "  jmp b ; back");
}

#[test]
fn programs_can_be_written_out() {
    for (_, src) in samples::ALL {
        let p = assemble(src).unwrap();
        let text: String = p.code.iter().map(|op| op.to_string() + "\n").collect();
        let q = assemble(&text).unwrap();
        assert_eq!(q.code, p.code);
        assert_eq!(q.line_of, (1..=p.code.len() as u32).collect::<Vec<_>>());
    }
}

#[test]
fn blank_lines_only_move_later_lines() {
    let blanks = ["", "   \t", "; a comment", "  ; push 1", "\r", "; done\r"];
    for (_, src) in samples::ALL {
        let p = assemble(src).unwrap();
        for k in 0..=p.source.len() {
            for blank in blanks {
                let mut lines: Vec<&str> = src.lines().collect();
                lines.insert(k, blank);
                let q = assemble(&(lines.join("\n") + "\n")).unwrap();
                assert_eq!(q.code, p.code);
                assert_eq!(q.labels, p.labels);
                assert_eq!((q.globals, q.memory), (p.globals, p.memory));
                let moved: Vec<u32> =
                    p.line_of.iter().map(|&n| if n as usize > k { n + 1 } else { n }).collect();
                assert_eq!(q.line_of, moved);
            }
        }
    }
    let fault = |src: &str| assemble(src).unwrap_err();
    assert_eq!(fault("halt\nnop\n").line, 2);
    assert_eq!(fault("halt\n\nnop\n").line, 3);
    assert_eq!(fault("halt\nnop\n;\n").line, 2);
    assert_eq!(fault("\n.memory x\n").line, 2);
    assert_eq!(fault("\n; x\n").line, 1);
    assert_eq!(fault("halt\nnop\n").message, fault("halt\n ;\nnop\n").message);
}

#[test]
fn comments_and_indentation_do_not_matter() {
    for (_, src) in samples::ALL {
        let p = assemble(src).unwrap();
        let q = assemble(&src.lines().map(|l| format!("\t {l};: .x\n")).collect::<String>()).unwrap();
        assert_eq!((&q.code, &q.line_of, &q.labels), (&p.code, &p.line_of, &p.labels));
        assert_eq!((q.globals, q.memory), (p.globals, p.memory));
        assert_ne!(q.source, p.source);
    }
    assert_eq!(assemble("halt\nnop\n"), assemble("  halt ; stop\n nop;\n"));
}

#[test]
fn every_assembly_error_has_its_text() {
    let cases = [
        ("  frobnicate\n", 1, "unknown mnemonic `frobnicate`"),
        ("  halt\n.bss 8\n", 2, "unknown directive `.bss`"),
        (".\n", 1, "unknown directive `.`"),
        (".globals\n", 1, "directive `.globals` needs a value"),
        (".memory x\n", 1, "invalid `.memory` value `x`"),
        (".globals 1048577\n", 1, ".globals value 1048577 too large (max 1048576)"),
        (".memory 1\n.memory 1\n", 2, "duplicate `.memory` directive"),
        (".globals 1\n.globals 1\n", 2, "duplicate `.globals` directive"),
        (" : \n", 1, "empty label"),
        ("7 :\n", 1, "label `7` looks like an address and could never be targeted by name"),
        ("a:\na:\n", 2, "duplicate label `a`"),
        ("push\n", 1, "missing integer operand"),
        ("push 1x\n", 1, "invalid integer `1x`"),
        ("load\n", 1, "missing operand"),
        ("storeg -1\n", 1, "invalid slot index `-1`"),
        ("jz\n", 1, "missing target operand"),
        ("jmp 2\n", 1, "branch target 2 is outside the program (0..=1)"),
        ("jnz far\n", 1, "unknown label `far`"),
        ("call 0\n", 1, "missing operand"),
        ("call 0 1 x\n", 1, "invalid slot index `x`"),
        ("", 1, "program has no instructions"),
        ("; nothing\n", 1, "program has no instructions"),
        ("push\n.globals x\n", 2, "invalid `.globals` value `x`"),
    ];
    for (src, line, message) in cases {
        let e = assemble(src).unwrap_err();
        assert_eq!(e, AsmError { line, message: message.to_string() }, "{src:?}");
        assert_eq!(e.to_string(), format!("line {line}: {message}"));
    }
    assert_eq!(MAX_DATA_CELLS, 1 << 20);
}

#[test]
fn every_expression_error_has_its_text_and_place() {
    let cases = [
        ("", "empty expression at offset 0"),
        ("   ", "empty expression at offset 3"),
        ("1 + 99999999999999999999", "integer literal `99999999999999999999` is out of range at offset 4"),
        ("(foo)", "unknown variable `foo` (available: pc, depth, top, globals[e], memory[e]) at offset 1"),
        ("é_1x+", "unknown variable `é_1x` (available: pc, depth, top, globals[e], memory[e]) at offset 0"),
        ("ü² + 1", "unknown variable `ü²` (available: pc, depth, top, globals[e], memory[e]) at offset 0"),
        ("1 € 2", "unexpected character `€` at offset 2"),
        ("pc & 1", "unexpected character `&` at offset 3"),
        ("1 +", "unexpected end of expression at offset 3"),
        ("()", "unexpected token `RParen` at offset 1"),
        ("* 2", "unexpected token `Star` at offset 0"),
        ("(1", "expected `)`, found end of expression at offset 2"),
        ("(1 2", "expected `)`, found `Int(2)` at offset 3"),
        ("globals", "expected `[` after `globals`, found end of expression at offset 7"),
        ("memory 1", "expected `[` after `memory`, found `Int(1)` at offset 7"),
        ("globals[1)", "expected `]`, found `RParen` at offset 9"),
        ("1 depth", "unexpected trailing input `Depth` at offset 2"),
    ];
    for (src, message) in cases {
        let e = Expr::parse(src).unwrap_err();
        assert_eq!(e.message, message, "{src:?}");
        assert_eq!(e.to_string(), message);
    }
}

#[test]
fn operators_bind_as_the_grammar_says() {
    let same = |a: &str, b: &str| assert_eq!(Expr::parse(a).unwrap(), Expr::parse(b).unwrap());
    same("1 || 2 && 3 == 4 + 5 * -6", "(1 || (2 && (3 == (4 + (5 * (-6))))))");
    same("1 - 2 - 3", "((1 - 2) - 3)");
    same("8 / 4 % 3 * 2", "(((8 / 4) % 3) * 2)");
    same("1 < 2 >= 3 != 4", "(((1 < 2) >= 3) != 4)");
    same("!-!pc", "(!(-(!(pc))))");
    same("globals[memory[top] <= 1]", "globals[(memory[(top)] <= 1)]");
    assert_eq!(Expr::parse("-5").unwrap(), Expr::Neg(Box::new(Expr::Const(5))));
}

#[test]
fn texts_combine_as_their_expressions_do() {
    let texts = ["1", "1 || 2", "pc == 3 && !top", " - globals[0] % 4 ", "(depth)", "memory[1 + 2]"];
    let parse = |s: String| Expr::parse(&s).unwrap();
    for s in texts {
        let e = parse(s.to_string());
        assert_eq!(parse(format!("({s})")), e);
        assert_eq!(parse(format!("  {s}  ")), e);
        assert_eq!(parse(format!("\t\n{s}\r")), e);
        assert_eq!(parse(format!("-({s})")), Expr::Neg(Box::new(e.clone())));
        assert_eq!(parse(format!("!({s})")), Expr::Not(Box::new(e.clone())));
        assert_eq!(parse(format!("globals[{s}]")), Expr::Global(Box::new(e.clone())));
        assert_eq!(parse(format!("memory[{s}]")), Expr::Memory(Box::new(e.clone())));
        for t in texts {
            let f = parse(t.to_string());
            let both = || (Box::new(e.clone()), Box::new(f.clone()));
            let (a, b) = both();
            assert_eq!(parse(format!("({s}) * ({t})")), Expr::Mul(a, b));
            let (a, b) = both();
            assert_eq!(parse(format!("({s}) <= ({t})")), Expr::Le(a, b));
            let (a, b) = both();
            assert_eq!(parse(format!("({s}) && ({t})")), Expr::And(a, b));
            let (a, b) = both();
            assert_eq!(parse(format!("{s} || ({t})")), Expr::Or(a, b));
            assert_eq!(
                Expr::parse(&format!("({s}) ({t})")).unwrap_err().message,
                format!("unexpected trailing input `LParen` at offset {}", s.chars().count() + 3),
            );
        }
    }
}

#[test]
fn expressions_agree_with_instructions() {
    let ops = [
        (Op::Add, "+"), (Op::Sub, "-"), (Op::Mul, "*"), (Op::Div, "/"), (Op::Mod, "%"),
        (Op::Lt, "<"), (Op::Gt, ">"), (Op::Le, "<="), (Op::Ge, ">="), (Op::Eq, "=="),
        (Op::Ne, "!="),
    ];
    for (op, sign) in ops {
        for (a, b) in [(7i64, 2i64), (2, 7), (5, 0), (i64::MAX, 2), (3, 3)] {
            let mut vm = Vm::new(&hand_built(vec![Op::Push(a), Op::Push(b), op]));
            let text = format!("{a} {sign} {b}");
            let value = Expr::parse(&text).unwrap().eval(&EvalCtx::of_vm(&vm));
            while vm.step().is_some() {}
            assert_eq!(vm.stack, vec![value], "{text}");
        }
    }
    let mut vm = Vm::new(&hand_built(vec![Op::LoadMem]));
    vm.memory = vec![1, 2, 3, 4];
    vm.stack = vec![-1];
    let read_before = Expr::parse("memory[top]").unwrap().eval(&EvalCtx::of_vm(&vm));
    vm.step();
    assert_eq!(vm.stack, vec![read_before]);
    let snap = vm.snapshot();
    let e = Expr::parse("top + pc * 10 + depth").unwrap();
    assert_eq!(e.eval(&EvalCtx::of_vm(&vm)), e.eval(&EvalCtx::of_snapshot(&snap)));
    assert_eq!(e.eval(&EvalCtx::of_snapshot(&snap)), 4 + 10 + 1);
}

#[test]
fn reverse_continue_mirrors_continue() {
    let mut d = Debugger::new(assemble(samples::FACTORIAL).unwrap());
    d.add_break(6);
    d.add_break(10);
    let mut forward = Vec::new();
    while let StopReason::Breakpoint(a) = d.cont() {
        forward.push((d.step_count(), a));
    }
    let mut back = Vec::new();
    while let StopReason::Breakpoint(a) = d.run_back() {
        back.push((d.step_count(), a));
    }
    back.reverse();
    assert_eq!(back, forward);
    assert!(!forward.is_empty());
}

#[test]
fn stepping_out_lands_after_the_call() {
    let mut d = Debugger::new(assemble(samples::FACTORIAL).unwrap());
    d.add_break(6);
    d.cont();
    d.cont();
    let frames = d.backtrace().to_vec();
    assert_eq!(frames.len(), 3);
    assert_eq!(d.step_out(), StopReason::Line);
    assert_eq!(d.backtrace(), &frames[..2]);
    assert_eq!(d.pc(), frames[2].return_pc);
    assert_eq!(d.locals(), frames[1].locals.as_slice());
    d.reset();
    assert_eq!(d.step_out(), StopReason::Halted);
}

#[test]
fn runs_stop_at_the_limit() {
    let mut d = Debugger::new(assemble("here:\n  jmp here\n").unwrap());
    assert_eq!(d.cont(), StopReason::Limit);
    assert_eq!(d.step_count(), 5_000_000);
}

#[test]
fn watchpoints_are_kept_once() {
    let mut d = Debugger::new(assemble(samples::SUM_LOOP).unwrap());
    let (a, b) = (WatchLoc::Global(0), WatchLoc::Global(1));
    d.add_watch(a);
    d.add_watch(b);
    d.add_watch(a);
    assert_eq!(d.watchpoints(), vec![a, b]);
    d.add_watch_cond(a, Expr::parse("globals[0] > 5").unwrap());
    assert_eq!(d.watchpoints(), vec![a, b]);
    assert!(d.watch_cond(a).is_some());
    d.add_watch(a);
    assert!(d.watch_cond(a).is_some());
    assert!(d.watch_cond(b).is_none());
    assert!(d.remove_watch(b));
    assert!(!d.remove_watch(b));
    assert_eq!(d.cont(), StopReason::Watchpoint(WatchHit { loc: a, old: 3, new: 6, step: 38 }));
    d.reset();
    assert_eq!(d.watchpoints(), vec![a]);
    assert_eq!(d.step_count(), 0);
}

#[test]
fn breakpoints_are_listed_and_removed() {
    let mut d = Debugger::new(assemble(samples::SUM_LOOP).unwrap());
    for addr in [9, 2, 5, 2] {
        d.add_break(addr);
    }
    assert_eq!(d.breakpoints(), vec![2, 5, 9]);
    d.add_break_cond(5, Expr::parse("0").unwrap());
    assert!(d.break_cond(5).is_some());
    assert!(d.break_cond(2).is_none());
    assert!(d.break_cond(1).is_none());
    assert!(d.remove_break(2));
    assert!(!d.remove_break(2));
    assert_eq!(d.breakpoints(), vec![5, 9]);
    assert_eq!(d.line_to_addr(4), Some(0));
    assert_eq!(d.line_to_addr(1), None);
    assert_eq!(d.add_break_line(6), Some(2));
    assert_eq!(d.add_break_line(3), None);
    assert_eq!(d.add_break_line_cond(9, Expr::parse("1").unwrap()), Some(4));
    assert_eq!(d.breakpoints(), vec![2, 4, 5, 9]);
    assert_eq!(d.cont(), StopReason::Breakpoint(2));
    d.reset();
    assert_eq!(d.breakpoints(), vec![2, 4, 5, 9]);
}

#[test]
fn an_empty_program_goes_nowhere() {
    let mut d = Debugger::new(hand_built(vec![]));
    assert!(!d.forward());
    assert_eq!(d.step_instr(), StopReason::Stepped);
    assert_eq!(d.cont(), StopReason::Halted);
    assert_eq!(d.goto(3), StopReason::Halted);
    assert_eq!(d.goto(0), StopReason::Stepped);
    assert_eq!(d.step_count(), 0);
    assert!(!d.halted());
}

#[test]
fn clones_are_independent() {
    let mut d = Debugger::new(assemble(samples::SUM_LOOP).unwrap());
    d.add_break_cond(4, Expr::parse("top == 0").unwrap());
    d.add_watch(WatchLoc::Global(1));
    d.goto(9);
    let mut c = d.clone();
    assert_eq!(c.snapshot(), d.snapshot());
    assert_eq!(c.breakpoints(), d.breakpoints());
    assert_eq!(c.watchpoints(), d.watchpoints());
    while c.backward() {}
    assert_eq!(c.step_count(), 0);
    assert_eq!(d.step_count(), 9);
}

#[test]
fn samples_are_found_by_name() {
    for (name, src) in samples::ALL {
        assert_eq!(samples::by_name(name), Some(src));
    }
    assert_eq!(samples::by_name("memory"), Some(samples::MEMORY_DEMO));
    assert_eq!(samples::by_name("nothing"), None);
}

#[test]
fn stepping_over_comes_back_to_the_frame() {
    let mut d = Debugger::new(assemble(samples::FACTORIAL).unwrap());
    d.add_break(15);
    d.cont();
    assert_eq!(d.program.code[d.pc()].to_string(), "sub");
    d.step_over();
    assert_eq!(d.program.code[d.pc()].to_string(), "call 6 1 2");
    let frames = d.backtrace().to_vec();
    let line = d.current_line();
    assert_eq!(d.step_over(), StopReason::Line);
    assert_eq!(d.backtrace(), frames.as_slice());
    assert_ne!(d.current_line(), line);
    assert_eq!(d.vm().stack.last(), Some(&24));
}
