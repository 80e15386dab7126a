use bloodhound::assembler::assemble;
use bloodhound::debugger::{Debugger, StopReason, WatchHit, WatchLoc};

fn dbg(src: &str) -> Debugger {
    Debugger::new(assemble(src).unwrap())
}

#[test]
fn forward_then_back_is_identity_from_any_step() {
    let mut d = dbg("  push 3\n  push 4\n  add\n  storeg 0\n  loadg 0\n  print\n  halt\n");
    let total = {
        let mut c = d.clone();
        let mut n = 0;
        while c.forward() {
            n += 1;
        }
        n
    };
    for start in 0..=total {
        let k = (total - start).min(3);
        if k == 0 {
            continue;
        }
        d.reset();
        d.goto(start);
        let before = d.snapshot();
        for _ in 0..k {
            assert!(d.forward());
        }
        for _ in 0..k {
            assert!(d.backward());
        }
        assert_eq!(d.snapshot(), before, "mismatch at start step {start}");
    }
}

#[test]
fn goto_reconstructs_forward_trace() {
    let mut d = dbg("  push 5\n  push 2\n  mul\n  storeg 1\n  print\n  halt\n");
    let mut trace = Vec::new();
    let mut c = d.clone();
    trace.push(c.snapshot());
    while c.forward() {
        trace.push(c.snapshot());
    }
    for (n, want) in trace.iter().enumerate() {
        d.reset();
        d.goto(n);
        assert_eq!(&d.snapshot(), want, "goto({n})");
    }
}

#[test]
fn watchpoint_reports_old_and_new() {
    let mut d = dbg("  push 11\n  storeg 0\n  push 22\n  storeg 0\n  halt\n");
    d.add_watch(WatchLoc::Global(0));
    let r1 = d.cont();
    assert_eq!(
        r1,
        StopReason::Watchpoint(WatchHit {
            loc: WatchLoc::Global(0),
            old: 0,
            new: 11,
            step: 2
        })
    );
    let r2 = d.cont();
    assert_eq!(
        r2,
        StopReason::Watchpoint(WatchHit {
            loc: WatchLoc::Global(0),
            old: 11,
            new: 22,
            step: 4
        })
    );
}

#[test]
fn step_over_skips_calls() {
    // line 1 call, line 2 print, callee on later lines
    let src = "  call helper 1 1\n  print\n  halt\nhelper:\n  load 0\n  dup\n  add\n  ret\n";
    // push arg first
    let src = format!("  push 8\n{src}");
    let mut d = dbg(&src);
    d.step_over(); // over the push -> next line still line-based
    // walk to the call line, then step over it
    // Simplest: reset and drive explicitly.
    d.reset();
    d.step_instr(); // execute push (line 1)
    let depth_before = d.vm().depth();
    d.step_over(); // over the call (line 2) -> should land back at depth, next line
    assert_eq!(d.vm().depth(), depth_before);
}
