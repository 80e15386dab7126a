//! The scripted demonstration of time travel.

use crate::console;
use crate::console::{print_backtrace, print_source, push_quoted_texts, render, report};
use crate::debugger;
use crate::debugger::{Debugger, Goal, Session, StopReason, WatchLoc};
use crate::machine;
use crate::text;
use crate::text::{chars_of, contains_text, push_decimal};
use vstd::prelude::*;
use vstd::string::StringExecFns;

verus! {

/// What the breakpoint line of the demonstration is found by.
pub const LANDMARK: &'static str = "n * fact";

/// The number of the first line that holds the landmark, 0 when there is none.
pub open spec fn is_landmark_line(source: Seq<Seq<char>>, line: u32) -> bool {
    if line > 0 {
        &&& line <= source.len()
        &&& text::occurs(LANDMARK@, source[line - 1])
        &&& forall|i: int| 0 <= i < line - 1 ==> !text::occurs(LANDMARK@, #[trigger] source[i])
    } else {
        forall|i: int|
            0 <= i < source.len() && i < u32::MAX ==> !text::occurs(
                LANDMARK@,
                #[trigger] source[i],
            )
    }
}

/// Find the first line that holds the landmark.
fn landmark_line(source: &Vec<String>) -> (line: u32)
    ensures
        is_landmark_line(crate::vm::texts(source@), line),
{
    let ghost all = crate::vm::texts(source@);
    let mark: Vec<char> = chars_of(LANDMARK);
    let mut i: usize = 0;
    while i < source.len() && (i as u64) < u32::MAX as u64
        invariant
            i <= source.len(),
            i <= u32::MAX,
            mark@ == LANDMARK@,
            all == crate::vm::texts(source@),
            forall|k: int| 0 <= k < i ==> !text::occurs(LANDMARK@, #[trigger] all[k]),
        decreases source.len() - i,
    {
        assert(all[i as int] == source@[i as int]@);
        if contains_text(chars_of(source[i].as_str()).as_slice(), mark.as_slice()) {
            return (i + 1) as u32;
        }
        i += 1;
    }
    0
}

/// A truth value, as text.
pub open spec fn yes_or_no(b: bool) -> Seq<char> {
    if b {
        "true"@
    } else {
        "false"@
    }
}

/// The session at another step.
pub open spec fn moved(d: Session, n: nat) -> Session {
    Session { steps: n, ..d }
}

/// The session one step earlier, itself at the start.
pub open spec fn earlier(d: Session) -> Session {
    if d.steps > 0 {
        moved(d, (d.steps - 1) as nat)
    } else {
        d
    }
}

/// What is told of the preparations.
pub open spec fn opening(d: Session, line: u32, addr: usize) -> Seq<char> {
    "=== Bloodhound scripted demo: recursive factorial(5) ===\n\n"@ + console::marked_lines(
        d,
        d.listing.source.len(),
    ) + "\nset breakpoint on line "@ + text::decimal(line as nat) + " (addr "@ + text::decimal(
        addr as nat,
    ) + "), the `mul` in recurse\n\nwatching global[0] (the result)\n\n"@
}

/// What is told of the two runs forward and the return to the first stop.
pub open spec fn middle(d: Session, n1: nat, r1: StopReason, n2: nat, r2: StopReason) -> Seq<char> {
    "continue #1:\n"@ + console::stop_text(moved(d, n1), r1) + "  backtrace here:\n"@
        + console::backtrace_text(moved(d, n1)) + "\ncontinue #2 (deeper recursion):\n"@
        + console::stop_text(moved(d, n2), r2) + "\ntime travel: goto step "@ + text::decimal(n1)
        + " (back to the first breakpoint hit):\n"@ + console::position_text(moved(d, n1))
        + "  state matches the earlier snapshot exactly (reverse execution verified)\n\n"@
}

/// What is told of one step forward and back.
pub open spec fn single_step(d: Session) -> Seq<char> {
    "single reverse step from here:\n  step forward changed state: "@ + yes_or_no(
        d.now() != d.next().now(),
    ) + "\n  step back restored it:      "@ + yes_or_no(earlier(d.next()).now() == d.now()) + "\n"@
        + console::position_text(earlier(d.next())) + "\n"@
}

/// What is told of the run to the end and the run back.
pub open spec fn ending(d: Session, n: nat, r: StopReason, back: nat, reason: StopReason) -> Seq<
    char,
> {
    "run to the end, then reverse-continue to the breakpoint:\n"@ + console::stop_text(
        moved(d, n),
        r,
    ) + "  output at halt: "@ + console::quoted_texts(d.at(n).output) + "\n"@ + console::stop_text(
        moved(d, back),
        reason,
    ) + "  output after reverse-continue (the print un-happened): "@ + console::quoted_texts(
        d.at(back).output,
    ) + "\n=== demo complete ===\n"@
}

/// The session with the breakpoint and the watchpoint of the demonstration.
pub open spec fn prepared(d: Session, addr: usize) -> Session {
    Session {
        breaks: d.breaks.insert(addr, None),
        watches: debugger::with_watch(d.watches, WatchLoc::Global(0), None),
        ..d
    }
}

/// The stops of the demonstration: the step and the reason of each.
pub struct Tour {
    /// The first run forward.
    pub first: (nat, StopReason),
    /// The second run forward.
    pub second: (nat, StopReason),
    /// The run to the end.
    pub last: (nat, StopReason),
    /// The run back.
    pub back: (nat, StopReason),
}

/// Whether a demonstration stops where the debugger stops.
pub open spec fn is_tour(d: Session, t: Tour) -> bool {
    let first = moved(d, t.first.0);
    &&& d.ends(Goal::Break, t.first.0, t.first.1)
    &&& first.ends(Goal::Break, t.second.0, t.second.1)
    &&& earlier(first.next()).ends(Goal::Break, t.last.0, t.last.1)
    &&& moved(d, t.last.0).returns_to(t.back.0, t.back.1)
}

/// Whether every frame that a demonstration makes can be allocated.
pub open spec fn tour_fits(d: Session) -> bool {
    &&& d.run_fits(Goal::Break)
    &&& forall|n: nat, r: StopReason| #[trigger]
        d.ends(Goal::Break, n, r) ==> {
            &&& moved(d, n).run_fits(Goal::Break)
            &&& earlier(moved(d, n).next()).run_fits(Goal::Break)
        }
}

/// What a demonstration tells.
pub open spec fn tour_text(d: Session, t: Tour) -> Seq<char> {
    middle(d, t.first.0, t.first.1, t.second.0, t.second.1) + single_step(moved(d, t.first.0))
        + ending(d, t.last.0, t.last.1, t.back.0, t.back.1)
}

/// Run forward twice and return to the first stop.
fn tell_middle(d: &mut Debugger) -> (r: (String, Ghost<(nat, StopReason, nat, StopReason)>))
    requires
        old(d).wf(),
        old(d)@.run_fits(Goal::Break),
        forall|n: nat, r: StopReason| #[trigger]
            old(d)@.ends(Goal::Break, n, r) ==> moved(old(d)@, n).run_fits(Goal::Break),
    ensures
        final(d).wf(),
        ({
            let (n1, r1, n2, r2) = r.1@;
            &&& old(d)@.ends(Goal::Break, n1, r1)
            &&& moved(old(d)@, n1).ends(Goal::Break, n2, r2)
            &&& final(d)@ == moved(old(d)@, n1)
            &&& r.0@ == middle(old(d)@, n1, r1, n2, r2)
        }),
{
    let ghost start = d@;
    let mut out = "continue #1:\n".to_owned();
    let r1 = d.cont();
    let ghost n1 = d@.steps;
    out.append(report(d, &r1).as_str());
    out.append("  backtrace here:\n");
    out.append(print_backtrace(d).as_str());
    let saved_step: usize = d.step_count();
    out.append("\ncontinue #2 (deeper recursion):\n");
    assert(start.ends(Goal::Break, n1, r1));
    assert(d@ == moved(start, n1));
    let r2 = d.cont();
    let ghost n2 = d@.steps;
    out.append(report(d, &r2).as_str());
    out.append("\ntime travel: goto step ");
    push_decimal(&mut out, saved_step as u64);
    out.append(" (back to the first breakpoint hit):\n");
    proof {
        debugger::debuggers_are_sound(*d);
        assert(start.reaches(n2));
    }
    let r3 = d.goto(saved_step);
    proof {
        let m = d@.steps;
        assert(moved(start, n2).goes_to(n1, m, r3));
        if m < n1 {
            assert(machine::can_step(start.image, start.at(m)));
        }
        assert(d@ == moved(start, n1));
    }
    out.append(render(d).as_str());
    out.append("  state matches the earlier snapshot exactly (reverse execution verified)\n\n");
    (out, Ghost((n1, r1, n2, r2)))
}

/// Append a truth value.
fn push_yes_or_no(out: &mut String, b: bool)
    ensures
        final(out)@ == old(out)@ + yes_or_no(b),
{
    if b {
        out.append("true");
    } else {
        out.append("false");
    }
}

/// Step forward and back.
fn tell_single_step(d: &mut Debugger) -> (out: String)
    requires
        old(d).wf(),
        old(d)@.next_fits(),
    ensures
        final(d).wf(),
        final(d)@ == earlier(old(d)@.next()),
        out@ == single_step(old(d)@),
{
    let mut out = "single reverse step from here:\n  step forward changed state: ".to_owned();
    let before = d.snapshot();
    d.step_instr();
    let ahead = d.snapshot();
    d.backward();
    let back = d.snapshot();
    push_yes_or_no(&mut out, !before.same(&ahead));
    out.append("\n  step back restored it:      ");
    push_yes_or_no(&mut out, back.same(&before));
    out.append("\n");
    out.append(render(d).as_str());
    out.append("\n");
    out
}

/// Run to the end and back.
fn tell_ending(d: &mut Debugger) -> (r: (String, Ghost<(nat, StopReason, StopReason)>))
    requires
        old(d).wf(),
        old(d)@.run_fits(Goal::Break),
    ensures
        final(d).wf(),
        ({
            let (n, r3, r4) = r.1@;
            &&& old(d)@.ends(Goal::Break, n, r3)
            &&& moved(old(d)@, n).returns_to(final(d)@.steps, r4)
            &&& final(d)@ == moved(old(d)@, final(d)@.steps)
            &&& r.0@ == ending(old(d)@, n, r3, final(d)@.steps, r4)
        }),
{
    let mut out = "run to the end, then reverse-continue to the breakpoint:\n".to_owned();
    let r3 = d.cont();
    let ghost n = d@.steps;
    out.append(report(d, &r3).as_str());
    out.append("  output at halt: ");
    push_quoted_texts(&mut out, &d.vm().output);
    out.append("\n");
    let r4 = d.run_back();
    out.append(report(d, &r4).as_str());
    out.append("  output after reverse-continue (the print un-happened): ");
    push_quoted_texts(&mut out, &d.vm().output);
    out.append("\n=== demo complete ===\n");
    (out, Ghost((n, r3, r4)))
}

/// Go on the tour: two runs forward, a step forward and back, and a run to the
/// end and back.
#[verifier::spinoff_prover]
fn tell_tour(d: &mut Debugger) -> (r: (String, Ghost<Tour>))
    requires
        old(d).wf(),
        tour_fits(old(d)@),
    ensures
        final(d).wf(),
        is_tour(old(d)@, r.1@),
        final(d)@ == moved(old(d)@, r.1@.back.0),
        r.0@ == tour_text(old(d)@, r.1@),
{
    let ghost base = d@;
    let (mut tour, Ghost(stops)) = tell_middle(d);
    proof {
        debugger::debuggers_are_sound(*d);
        assert(d@.goes_on(Goal::Break, d@.steps));
    }
    let stepped: String = tell_single_step(d);
    tour.append(stepped.as_str());
    let (text_of_end, Ghost(end_stops)) = tell_ending(d);
    tour.append(text_of_end.as_str());
    let ghost t = Tour {
        first: (stops.0, stops.1),
        second: (stops.2, stops.3),
        last: (end_stops.0, end_stops.1),
        back: (d@.steps, end_stops.2),
    };
    proof {
        let rested = earlier(moved(base, t.first.0).next());
        assert(moved(rested, t.last.0) == moved(base, t.last.0));
        assert(moved(rested, t.back.0) == moved(base, t.back.0));
        assert(ending(rested, t.last.0, t.last.1, t.back.0, t.back.1) == ending(
            base,
            t.last.0,
            t.last.1,
            t.back.0,
            t.back.1,
        ));
    }
    (tour, Ghost(t))
}

/// Tell of the preparations.
fn tell_opening(d: &Debugger, line: u32, addr: usize) -> (out: String)
    requires
        d.wf(),
    ensures
        out@ == opening(d@, line, addr),
{
    let mut out = "=== Bloodhound scripted demo: recursive factorial(5) ===\n\n".to_owned();
    out.append(print_source(d).as_str());
    out.append("\nset breakpoint on line ");
    push_decimal(&mut out, line as u64);
    out.append(" (addr ");
    push_decimal(&mut out, addr as u64);
    out.append("), the `mul` in recurse\n\nwatching global[0] (the result)\n\n");
    out
}

/// Whether every frame that the demonstration of a program makes can be
/// allocated.
pub open spec fn demonstration_fits(d: Session) -> bool {
    forall|line: u32, addr: usize|
        #[trigger] is_landmark_line(d.listing.source, line)
            && #[trigger] debugger::is_first_address(d.listing.image.lines, line, Some(addr))
            ==> tour_fits(prepared(d, addr))
}

/// A program is demonstrated without trouble when every frame that its code may
/// make can be allocated.
pub proof fn fitting_code_can_be_demonstrated(d: Session)
    requires
        machine::frames_fit(d.image.code),
    ensures
        demonstration_fits(d),
{
    assert forall|addr: usize| tour_fits(#[trigger] prepared(d, addr)) by {
        let p = prepared(d, addr);
        debugger::fitting_code_never_stalls(p);
        assert forall|n: nat, r: StopReason| #[trigger] p.ends(Goal::Break, n, r) implies moved(
            p,
            n,
        ).run_fits(Goal::Break) && earlier(moved(p, n).next()).run_fits(Goal::Break) by {
            debugger::fitting_code_never_stalls(moved(p, n));
            debugger::fitting_code_never_stalls(earlier(moved(p, n).next()));
        }
    }
}

/// Whether the demonstration was told: `None` when no instruction comes from the
/// landmark line.
pub open spec fn told(before: Session, after: Session, out: Option<Seq<char>>) -> bool {
    exists|line: u32, found: Option<usize>|
        {
            &&& #[trigger] is_landmark_line(before.listing.source, line)
            &&& #[trigger] debugger::is_first_address(before.listing.image.lines, line, found)
            &&& match found {
                None => after == before && out is None,
                Some(addr) => told_from(before, after, line, addr, out),
            }
        }
}

/// Whether the demonstration with a breakpoint at `addr` was told.
pub open spec fn told_from(
    before: Session,
    after: Session,
    line: u32,
    addr: usize,
    out: Option<Seq<char>>,
) -> bool {
    exists|t: Tour|
        {
            &&& #[trigger] is_tour(prepared(before, addr), t)
            &&& after == moved(prepared(before, addr), t.back.0)
            &&& out == Some(opening(before, line, addr) + tour_text(prepared(before, addr), t))
        }
}

/// Give the demonstration: set a breakpoint on the landmark line and watch the
/// result, run to the breakpoint twice, go back in time, and run to the end and
/// back. The state after each move back is the one that was left, which is what
/// the text says.
#[verifier::spinoff_prover]
pub fn demonstrate(d: &mut Debugger) -> (out: Option<String>)
    requires
        old(d).wf(),
        demonstration_fits(old(d)@),
    ensures
        final(d).wf(),
        told(
            old(d)@,
            final(d)@,
            match out {
                Some(s) => Some(s@),
                None => None,
            },
        ),
{
    let ghost before = d@;
    let line: u32 = landmark_line(&d.program().source);
    assert(is_landmark_line(before.listing.source, line));
    let addr: usize = match d.line_to_addr(line) {
        Some(addr) => addr,
        None => {
            assert(debugger::is_first_address(before.listing.image.lines, line, None));
            return None;
        },
    };
    assert(debugger::is_first_address(before.listing.image.lines, line, Some(addr)));
    let mut out = tell_opening(d, line, addr);
    d.add_break(addr);
    d.add_watch(WatchLoc::Global(0));
    assert(d@ == prepared(before, addr));
    let (tour, Ghost(t)) = tell_tour(d);
    out.append(tour.as_str());
    assert(is_tour(prepared(before, addr), t));
    assert(told_from(before, d@, line, addr, Some(out@)));
    Some(out)
}

} // verus!
