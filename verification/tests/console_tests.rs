//! The answers of the console, checked against the same text put together with
//! the formatting of the standard library.

use bloodhound::assembler::assemble;
use bloodhound::console::{
    dispatch, greeting, parse_watch, print_backtrace, print_source, print_state, render, report,
    respond, watch_name, HELP,
};
use bloodhound::debugger::{Debugger, StopReason, WatchHit, WatchLoc};
use bloodhound::demo::demonstrate;
use bloodhound::samples;

fn load(src: &str) -> Debugger {
    let p = assemble(src).unwrap();
    assert!(p.fits());
    Debugger::new(p)
}

fn expected_render(d: &Debugger) -> String {
    let line = d.current_line();
    let op = d.vm().current_op().map_or_else(|| "<end>".to_string(), |op| op.to_string());
    let status = if d.halted() { " [halted]" } else { "" };
    let mut out = format!(
        "step {:<4} line {:<3} pc {:<3} {}{}\n",
        d.step_count(),
        line,
        d.pc(),
        op,
        status
    );
    if line > 0 {
        if let Some(text) = d.program.source.get((line - 1) as usize) {
            out += &format!("  >> {}\n", text.trim_end());
        }
    }
    out += &format!("  stack {:?}\n", d.vm().stack);
    out += &format!("  locals {:?}\n", d.locals());
    out
}

fn expected_name(loc: WatchLoc) -> String {
    match loc {
        WatchLoc::Global(i) => format!("global[{i}]"),
        WatchLoc::Mem(i) => format!("mem[{i}]"),
        WatchLoc::Local(i) => format!("local[{i}]"),
    }
}

fn expected_report(d: &Debugger, reason: &StopReason) -> String {
    let said = match reason {
        StopReason::Breakpoint(a) => {
            format!("stopped at breakpoint (addr {a}, line {})\n", d.current_line())
        }
        StopReason::Watchpoint(hit) => format!(
            "watchpoint {}: {} -> {} at step {}\n",
            expected_name(hit.loc),
            hit.old,
            hit.new,
            hit.step
        ),
        StopReason::Halted => "program halted\n".to_string(),
        StopReason::Limit => "step limit reached\n".to_string(),
        StopReason::Start => "reached the start of history\n".to_string(),
        StopReason::Stepped | StopReason::Line => String::new(),
    };
    said + &expected_render(d)
}

fn expected_state(d: &Debugger) -> String {
    let mem: Vec<(usize, i64)> = d
        .vm()
        .memory
        .iter()
        .enumerate()
        .filter(|(_, &v)| v != 0)
        .map(|(i, &v)| (i, v))
        .collect();
    let mut out = expected_render(d);
    out += &format!("  globals {:?}\n", d.vm().globals);
    out += &format!("  memory (nonzero) {mem:?}\n");
    out += &format!("  output {:?}\n", d.vm().output);
    if !d.breakpoints().is_empty() {
        out += &format!("  breakpoints (addr) {:?}\n", d.breakpoints());
    }
    out
}

fn expected_backtrace(d: &Debugger) -> String {
    let mut out = "call stack (innermost last):\n".to_string();
    for (i, f) in d.backtrace().iter().enumerate() {
        out += &format!(
            "  #{i} {} return_pc={} call_line={} locals={:?}\n",
            f.func, f.return_pc, f.call_line, f.locals
        );
    }
    out
}

fn expected_source(d: &Debugger) -> String {
    let mut out = String::new();
    for (i, text) in d.program.source.iter().enumerate() {
        let lineno = (i + 1) as u32;
        let marker = if lineno == d.current_line() { "->" } else { "  " };
        let at_break = d.line_to_addr(lineno).is_some_and(|a| d.breakpoints().contains(&a));
        let bp = if at_break { "*" } else { " " };
        out += &format!("{marker}{bp}{lineno:>3} | {}\n", text.trim_end());
    }
    out
}

#[test]
fn every_view_matches_the_standard_formatting() {
    for (_, src) in samples::ALL {
        let mut d = load(src);
        d.add_break(3);
        d.add_break(1);
        loop {
            assert_eq!(render(&d), expected_render(&d));
            assert_eq!(print_state(&d), expected_state(&d));
            assert_eq!(print_backtrace(&d), expected_backtrace(&d));
            assert_eq!(print_source(&d), expected_source(&d));
            if !d.forward() {
                break;
            }
        }
    }
}

#[test]
fn every_reason_is_reported() {
    let d = load(samples::SUM_LOOP);
    let hit = WatchHit { loc: WatchLoc::Mem(2), old: -4, new: 9, step: 17 };
    for reason in [
        StopReason::Breakpoint(4),
        StopReason::Watchpoint(hit),
        StopReason::Halted,
        StopReason::Stepped,
        StopReason::Line,
        StopReason::Start,
        StopReason::Limit,
    ] {
        assert_eq!(report(&d, &reason), expected_report(&d, &reason));
    }
}

fn ask(d: &mut Debugger, line: &str) -> String {
    let reply = dispatch(d, line);
    assert!(!reply.quit);
    reply.text
}

#[test]
fn motion_commands_move_and_report() {
    let mut d = load(samples::FACTORIAL);
    let mut e = load(samples::FACTORIAL);
    for (command, word) in [("break 25", 25u32), ("bp 12", 12)] {
        let a = e.add_break_line(word).unwrap();
        assert_eq!(ask(&mut d, command), format!("breakpoint at line {word} (addr {a})\n"));
    }
    e.add_watch(WatchLoc::Global(0));
    assert_eq!(ask(&mut d, "watch g0"), "watching global[0]\n");
    for command in ["c", "continue", "s", "step", "n", "next", "out", "finish", "si", "stepi"] {
        let r = match command {
            "c" | "continue" => e.cont(),
            "s" | "step" => e.step_line(),
            "n" | "next" => e.step_over(),
            "out" | "finish" => e.step_out(),
            _ => e.step_instr(),
        };
        assert_eq!(ask(&mut d, command), expected_report(&e, &r), "{command}");
        assert_eq!(d.snapshot(), e.snapshot(), "{command}");
    }
    for command in ["rc", "b", "back", "goto 5", "g 1000000", "reset"] {
        let want = match command {
            "rc" => {
                let r = e.run_back();
                expected_report(&e, &r)
            }
            "b" | "back" => {
                assert!(e.backward());
                expected_render(&e)
            }
            "goto 5" => {
                e.goto(5);
                expected_render(&e)
            }
            "g 1000000" => {
                e.goto(1_000_000);
                expected_render(&e)
            }
            _ => {
                e.reset();
                expected_render(&e)
            }
        };
        assert_eq!(ask(&mut d, command), want, "{command}");
        assert_eq!(d.snapshot(), e.snapshot(), "{command}");
        assert_eq!(d.breakpoints(), e.breakpoints());
        assert_eq!(d.watchpoints(), e.watchpoints());
    }
    assert_eq!(ask(&mut d, "back"), "already at the start (step 0)\n");
    assert_eq!(ask(&mut d, "src"), expected_source(&e));
    assert_eq!(ask(&mut d, "list"), expected_source(&e));
    assert_eq!(ask(&mut d, "bt"), expected_backtrace(&e));
    assert_eq!(ask(&mut d, "where"), expected_backtrace(&e));
    assert_eq!(ask(&mut d, "p"), expected_state(&e));
    assert_eq!(ask(&mut d, "print"), expected_state(&e));
}

#[test]
fn faulty_commands_change_nothing() {
    let mut d = load(samples::SUM_LOOP);
    let before = d.snapshot();
    for (command, answer) in [
        ("goto", "usage: goto <step>\n"),
        ("goto x", "usage: goto <step>\n"),
        ("g -1", "usage: goto <step>\n"),
        ("break", "usage: break <line> [if <expr>]\n"),
        ("break 4294967296", "usage: break <line> [if <expr>]\n"),
        ("break 1", "no instruction on line 1\n"),
        ("breaki", "usage: breaki <addr> [if <expr>]\n"),
        ("delete", "usage: delete <line>\n"),
        ("d 4", "no breakpoint on line 4\n"),
        ("delete 999", "no breakpoint on line 999\n"),
        ("watch", "usage: watch g<idx> | m<idx> | l<idx> [if <expr>]\n"),
        ("w x0", "usage: watch g<idx> | m<idx> | l<idx> [if <expr>]\n"),
        ("w g", "usage: watch g<idx> | m<idx> | l<idx> [if <expr>]\n"),
        ("watch é1", "usage: watch g<idx> | m<idx> | l<idx> [if <expr>]\n"),
        ("fly away", "unknown command `fly` (try `help`)\n"),
        ("break 3 if", "no instruction on line 3\n"),
        ("break 4 if ?", "bad condition: unexpected character `?` at offset 0\n"),
        ("c if pc +", "bad condition: unexpected end of expression at offset 4\n"),
        ("eval", "bad expression: empty expression at offset 0\n"),
        ("eval 1 +  )", "bad expression: unexpected token `RParen` at offset 5\n"),
    ] {
        assert_eq!(ask(&mut d, command), answer, "{command}");
    }
    assert_eq!(d.snapshot(), before);
    assert!(d.breakpoints().is_empty());
    assert!(d.watchpoints().is_empty());
}

#[test]
fn conditions_are_attached() {
    let mut d = load(samples::SUM_LOOP);
    assert_eq!(
        ask(&mut d, "break 12 if globals[1] == 3"),
        "breakpoint at line 12 (addr 7) if globals[1] == 3\n"
    );
    let cond = d.break_cond(7).expect("a condition");
    assert!(!cond.eval_cond(&d.eval_ctx()));
    assert_eq!(ask(&mut d, "breaki 2 if  top > 0 "), "breakpoint at addr 2 if top > 0\n");
    assert_eq!(ask(&mut d, "breaki 3"), "breakpoint at addr 3\n");
    assert_eq!(
        ask(&mut d, "watch m1 if memory[1] != 0"),
        "watching mem[1] if memory[1] != 0\n"
    );
    assert!(d.watch_cond(WatchLoc::Mem(1)).is_some());
    assert_eq!(ask(&mut d, "watch l0"), "watching local[0]\n");
    assert_eq!(d.breakpoints(), vec![2, 3, 7]);
    assert_eq!(d.watchpoints(), vec![WatchLoc::Mem(1), WatchLoc::Local(0)]);
    assert_eq!(ask(&mut d, "delete 12"), "removed breakpoint on line 12\n");
    assert_eq!(ask(&mut d, "d 12"), "no breakpoint on line 12\n");
    assert_eq!(d.breakpoints(), vec![2, 3]);
    assert_eq!(ask(&mut d, "eval 2 + 3 * depth"), "= 5\n");
    assert_eq!(ask(&mut d, "  eval 7 - 9 if 1"), "= -2\n");
}

#[test]
fn help_quit_and_blank_lines() {
    let mut d = load(samples::MEMORY_DEMO);
    assert_eq!(ask(&mut d, "help"), HELP);
    assert_eq!(ask(&mut d, "h"), HELP);
    assert!(HELP.starts_with("commands:\n  src                 show the program"));
    assert!(HELP.ends_with("== != < <= > >=, && || ! and parentheses\n"));
    for line in ["q", "quit", "quit now"] {
        let reply = dispatch(&mut d, line);
        assert!(reply.quit);
        assert_eq!(reply.text, "");
    }
    for line in ["", "  \n", "\t"] {
        let reply = respond(&mut d, line);
        assert!(!reply.quit);
        assert_eq!(reply.text, "");
    }
    assert_eq!(respond(&mut d, "  si \n").text, expected_render(&d));
    assert_eq!(d.step_count(), 1);
    assert!(respond(&mut d, " q\n").quit);
}

#[test]
fn greeting_names_the_program() {
    let d = load(samples::MEMORY_DEMO);
    assert_eq!(
        greeting(&d, "memory"),
        format!(
            "Bloodhound time-travel debugger. Loaded `memory`.\n\
             Type `help` for commands, `src` to see the program.\n\n{}",
            expected_render(&d)
        )
    );
}

#[test]
fn watch_names_are_parsed_and_shown() {
    let parse = |s: &str| parse_watch(&s.chars().collect::<Vec<char>>());
    for (word, loc, name) in [
        ("g0", WatchLoc::Global(0), "global[0]"),
        ("m17", WatchLoc::Mem(17), "mem[17]"),
        ("l+3", WatchLoc::Local(3), "local[3]"),
    ] {
        assert_eq!(parse(word), Some(loc));
        assert_eq!(watch_name(loc), name);
    }
    for word in ["", "g", "x1", "g1x", "1", "gg1", "m-1"] {
        assert_eq!(parse(word), None, "{word}");
    }
}

#[test]
fn demonstration_tells_what_happens() {
    let mut d = load(samples::FACTORIAL);
    let mut e = load(samples::FACTORIAL);
    let mut want =
        "=== Bloodhound scripted demo: recursive factorial(5) ===\n\n".to_string();
    want += &expected_source(&e);
    want += "\n";
    let line = e.program.source.iter().position(|l| l.contains("n * fact")).unwrap() as u32 + 1;
    let addr = e.add_break_line(line).unwrap();
    want += &format!("set breakpoint on line {line} (addr {addr}), the `mul` in recurse\n\n");
    e.add_watch(WatchLoc::Global(0));
    want += "watching global[0] (the result)\n\ncontinue #1:\n";
    let r = e.cont();
    want += &expected_report(&e, &r);
    want += "  backtrace here:\n";
    want += &expected_backtrace(&e);
    let saved_step = e.step_count();
    let saved = e.snapshot();
    want += "\ncontinue #2 (deeper recursion):\n";
    let r = e.cont();
    want += &expected_report(&e, &r);
    want += &format!(
        "\ntime travel: goto step {saved_step} (back to the first breakpoint hit):\n"
    );
    e.goto(saved_step);
    want += &expected_render(&e);
    assert_eq!(e.snapshot(), saved);
    want += "  state matches the earlier snapshot exactly (reverse execution verified)\n\n";
    let before = e.snapshot();
    e.step_instr();
    let ahead = e.snapshot();
    e.backward();
    let back = e.snapshot();
    want += &format!(
        "single reverse step from here:\n  step forward changed state: {}\n  step back restored it:      {}\n",
        before != ahead,
        back == before
    );
    assert!(!before.same(&ahead));
    assert!(back.same(&before));
    want += &expected_render(&e);
    want += "\nrun to the end, then reverse-continue to the breakpoint:\n";
    let r = e.cont();
    want += &expected_report(&e, &r);
    want += &format!("  output at halt: {:?}\n", e.vm().output);
    let r = e.run_back();
    want += &expected_report(&e, &r);
    want += &format!(
        "  output after reverse-continue (the print un-happened): {:?}\n=== demo complete ===\n",
        e.vm().output
    );
    assert_eq!(demonstrate(&mut d), Some(want));
    assert_eq!(d.snapshot(), e.snapshot());
}

#[test]
fn demonstration_needs_its_landmark() {
    let mut d = load(samples::SUM_LOOP);
    assert_eq!(demonstrate(&mut d), None);
    assert_eq!(d.step_count(), 0);
    assert!(d.breakpoints().is_empty());
}

#[test]
fn looking_leaves_the_session_alone() {
    let mut d = load(samples::FACTORIAL);
    d.add_break(6);
    d.add_watch(WatchLoc::Global(0));
    d.goto(11);
    let before = d.snapshot();
    for line in ["help", "src", "eval memory[0 - 1] + top", "bt", "print", "nonsense", "quit"] {
        dispatch(&mut d, line);
        assert_eq!(d.snapshot(), before, "{line}");
        assert_eq!(d.step_count(), 11);
        assert_eq!(d.breakpoints(), vec![6]);
        assert_eq!(d.watchpoints(), vec![WatchLoc::Global(0)]);
    }
}
