//! The commands of the interactive debugger and the text it answers with.
//!
//! A command is a line of text. Answering it moves the debugger and gives the
//! text to show.

use crate::debugger;
use crate::debugger::{Debugger, Goal, Session, StopReason, WatchLoc};
use crate::expr;
use crate::expr::Expr;
use crate::grammar;
use crate::grammar::parse_text;
use crate::machine;
use crate::machine::Activation;
use crate::text;
use crate::text::{
    chars_of, is_text, nth_word, parse_u32, parse_usize, push_chars, push_decimal, push_signed,
    split_words, string_of, trim, trim_end, trim_start,
};
use crate::vm;
use crate::vm::{Frame, Vm};
use vstd::prelude::*;
use vstd::slice::slice_subrange;
use vstd::string::StringExecFns;

verus! {

/// `n` spaces, none when `n` is negative.
pub open spec fn blanks(n: int) -> Seq<char> {
    Seq::new(
        if n > 0 {
            n as nat
        } else {
            0
        },
        |i: int| ' ',
    )
}

/// A number at the left of a column.
pub open spec fn left(n: nat, width: int) -> Seq<char> {
    text::decimal(n) + blanks(width - text::decimal(n).len())
}

/// A number at the right of a column.
pub open spec fn right(n: nat, width: int) -> Seq<char> {
    blanks(width - text::decimal(n).len()) + text::decimal(n)
}

/// Values with commas between them.
pub open spec fn comma_separated(items: Seq<Seq<char>>) -> Seq<char>
    decreases items.len(),
{
    if items.len() == 0 {
        Seq::empty()
    } else if items.len() == 1 {
        items[0]
    } else {
        comma_separated(items.drop_last()) + ", "@ + items.last()
    }
}

/// A list in brackets.
pub open spec fn bracketed(items: Seq<Seq<char>>) -> Seq<char> {
    "["@ + comma_separated(items) + "]"@
}

/// A list of integers.
pub open spec fn integers(values: Seq<i64>) -> Seq<char> {
    bracketed(values.map_values(|v: i64| text::signed_decimal(v as int)))
}

/// A list of addresses.
pub open spec fn addresses(values: Seq<usize>) -> Seq<char> {
    bracketed(values.map_values(|v: usize| text::decimal(v as nat)))
}

/// The cells of a memory that are not zero, each with its address.
pub open spec fn occupied(memory: Seq<i64>) -> Seq<(nat, i64)>
    decreases memory.len(),
{
    if memory.len() == 0 {
        Seq::empty()
    } else if memory.last() != 0 {
        occupied(memory.drop_last()).push(((memory.len() - 1) as nat, memory.last()))
    } else {
        occupied(memory.drop_last())
    }
}

/// An address with its value.
pub open spec fn cell_text(cell: (nat, i64)) -> Seq<char> {
    "("@ + text::decimal(cell.0) + ", "@ + text::signed_decimal(cell.1 as int) + ")"@
}

/// A list of the cells that are not zero.
pub open spec fn cells(memory: Seq<i64>) -> Seq<char> {
    bracketed(occupied(memory).map_values(|c: (nat, i64)| cell_text(c)))
}

/// A text in double quotes. Program output is decimal numbers, which need no
/// escapes.
pub open spec fn in_quotes(s: Seq<char>) -> Seq<char> {
    "\""@ + s + "\""@
}

/// A list of texts in double quotes.
pub open spec fn quoted_texts(items: Seq<Seq<char>>) -> Seq<char> {
    bracketed(items.map_values(|s: Seq<char>| in_quotes(s)))
}

/// Append spaces.
fn push_blanks(out: &mut String, n: usize)
    ensures
        final(out)@ == old(out)@ + blanks(n as int),
{
    let mut i: usize = 0;
    while i < n
        invariant
            i <= n,
            out@ =~= old(out)@ + blanks(i as int),
        decreases n - i,
    {
        out.push(' ');
        i += 1;
    }
}

/// The characters of a decimal number.
fn decimal_chars(n: u64) -> (chars: Vec<char>)
    ensures
        chars@ == text::decimal(n as nat),
{
    let mut s = String::new();
    push_decimal(&mut s, n);
    assert(s@ =~= text::decimal(n as nat));
    chars_of(s.as_str())
}

/// How many spaces fill a column.
fn fill(used: usize, width: usize) -> (n: usize)
    ensures
        blanks(n as int) == blanks(width - used),
{
    if used < width {
        width - used
    } else {
        assert(blanks(0) =~= blanks(width - used));
        0
    }
}

/// Append a number at the left of a column.
fn push_left(out: &mut String, n: u64, width: usize)
    ensures
        final(out)@ == old(out)@ + left(n as nat, width as int),
{
    let chars: Vec<char> = decimal_chars(n);
    push_chars(out, chars.as_slice());
    push_blanks(out, fill(chars.len(), width));
    assert(out@ =~= old(out)@ + left(n as nat, width as int));
}

/// Append a number at the right of a column.
fn push_right(out: &mut String, n: u64, width: usize)
    ensures
        final(out)@ == old(out)@ + right(n as nat, width as int),
{
    let chars: Vec<char> = decimal_chars(n);
    push_blanks(out, fill(chars.len(), width));
    push_chars(out, chars.as_slice());
    assert(out@ =~= old(out)@ + right(n as nat, width as int));
}

/// Append a list in brackets.
fn push_bracketed(out: &mut String, items: &Vec<String>)
    ensures
        final(out)@ == old(out)@ + bracketed(vm::texts(items@)),
{
    let ghost all = vm::texts(items@);
    out.append("[");
    let mut i: usize = 0;
    while i < items.len()
        invariant
            i <= items.len(),
            all == vm::texts(items@),
            out@ =~= old(out)@ + "["@ + comma_separated(all.take(i as int)),
        decreases items.len() - i,
    {
        let ghost part = all.take(i + 1);
        proof {
            assert(part.drop_last() =~= all.take(i as int));
            assert(part.last() == items@[i as int]@);
            if i == 0 {
                assert(comma_separated(all.take(0)) =~= Seq::empty());
            }
        }
        if i > 0 {
            out.append(", ");
        }
        out.append(items[i].as_str());
        i += 1;
    }
    out.append("]");
    assert(all.take(i as int) =~= all);
    assert(out@ =~= old(out)@ + bracketed(all));
}

/// Append a list of integers.
fn push_integers(out: &mut String, values: &[i64])
    ensures
        final(out)@ == old(out)@ + integers(values@),
{
    let mut items: Vec<String> = Vec::new();
    let mut i: usize = 0;
    while i < values.len()
        invariant
            i <= values.len(),
            items@.len() == i,
            forall|k: int|
                0 <= k < i ==> (#[trigger] items@[k])@ == text::signed_decimal(values@[k] as int),
        decreases values.len() - i,
    {
        let mut item = String::new();
        push_signed(&mut item, values[i]);
        assert(item@ =~= text::signed_decimal(values@[i as int] as int));
        items.push(item);
        i += 1;
    }
    assert(vm::texts(items@) =~= values@.map_values(|v: i64| text::signed_decimal(v as int)));
    push_bracketed(out, &items);
}

/// Append a list of addresses.
fn push_addresses(out: &mut String, values: &Vec<usize>)
    ensures
        final(out)@ == old(out)@ + addresses(values@),
{
    let mut items: Vec<String> = Vec::new();
    let mut i: usize = 0;
    while i < values.len()
        invariant
            i <= values.len(),
            items@.len() == i,
            forall|k: int|
                0 <= k < i ==> (#[trigger] items@[k])@ == text::decimal(values@[k] as nat),
        decreases values.len() - i,
    {
        let mut item = String::new();
        push_decimal(&mut item, values[i] as u64);
        assert(item@ =~= text::decimal(values@[i as int] as nat));
        items.push(item);
        i += 1;
    }
    assert(vm::texts(items@) =~= values@.map_values(|v: usize| text::decimal(v as nat)));
    push_bracketed(out, &items);
}

/// Append a list of the cells that are not zero.
fn push_cells(out: &mut String, memory: &Vec<i64>)
    ensures
        final(out)@ == old(out)@ + cells(memory@),
{
    let mut items: Vec<String> = Vec::new();
    let mut i: usize = 0;
    while i < memory.len()
        invariant
            i <= memory.len(),
            vm::texts(items@) =~= occupied(memory@.take(i as int)).map_values(
                |c: (nat, i64)| cell_text(c),
            ),
        decreases memory.len() - i,
    {
        let ghost part = memory@.take(i + 1);
        assert(part.drop_last() =~= memory@.take(i as int));
        let v: i64 = memory[i];
        if v != 0 {
            let mut item = "(".to_owned();
            push_decimal(&mut item, i as u64);
            item.append(", ");
            push_signed(&mut item, v);
            item.append(")");
            let ghost before = items@;
            items.push(item);
            proof {
                let cell = (i as nat, v);
                assert(item@ == cell_text(cell));
                assert(vm::texts(items@) =~= vm::texts(before).push(item@));
                assert(occupied(part) =~= occupied(part.drop_last()).push(cell));
            }
        }
        i += 1;
    }
    assert(memory@.take(i as int) =~= memory@);
    push_bracketed(out, &items);
}

/// Append a list of texts in double quotes.
pub fn push_quoted_texts(out: &mut String, texts: &Vec<String>)
    ensures
        final(out)@ == old(out)@ + quoted_texts(vm::texts(texts@)),
{
    let mut items: Vec<String> = Vec::new();
    let mut i: usize = 0;
    while i < texts.len()
        invariant
            i <= texts.len(),
            items@.len() == i,
            forall|k: int| 0 <= k < i ==> (#[trigger] items@[k])@ == in_quotes(texts@[k]@),
        decreases texts.len() - i,
    {
        let mut item = "\"".to_owned();
        item.append(texts[i].as_str());
        item.append("\"");
        items.push(item);
        i += 1;
    }
    assert(vm::texts(items@) =~= vm::texts(texts@).map_values(|s: Seq<char>| in_quotes(s)));
    push_bracketed(out, &items);
}

/// The instruction about to execute, as text.
pub open spec fn next_instruction(d: Session) -> Seq<char> {
    if d.can_step() {
        vm::spelling(d.image.code[d.now().pc as int])
    } else {
        "<end>"@
    }
}

/// The source line of a state, as text.
pub open spec fn source_excerpt(d: Session) -> Seq<char> {
    let line = d.line(d.now());
    if 0 < line <= d.listing.source.len() {
        "  >> "@ + text::trimmed_end(d.listing.source[line - 1]) + "\n"@
    } else {
        ""@
    }
}

/// Where the machine stands: the step, the line, the address and the
/// instruction, the source line, the stack and the locals.
pub open spec fn position_text(d: Session) -> Seq<char> {
    "step "@ + left(d.steps, 4) + " line "@ + left(d.line(d.now()) as nat, 3) + " pc "@ + left(
        d.now().pc,
        3,
    ) + " "@ + next_instruction(d) + (if d.now().halted {
        " [halted]"@
    } else {
        ""@
    }) + "\n"@ + source_excerpt(d) + "  stack "@ + integers(d.now().stack) + "\n  locals "@
        + integers(d.now().frames.last().locals) + "\n"@
}

/// The source line of the current state, as text.
fn excerpt(d: &Debugger) -> (out: String)
    requires
        d.wf(),
    ensures
        out@ == source_excerpt(d@),
{
    let line: u32 = d.current_line();
    let source: &Vec<String> = &d.program().source;
    if line > 0 && (line - 1) as usize as u64 == (line - 1) as u64 && ((line - 1) as usize)
        < source.len() {
        let i: usize = (line - 1) as usize;
        assert(d@.listing.source[i as int] == source@[i as int]@);
        let chars: Vec<char> = chars_of(source[i].as_str());
        let mut out = "  >> ".to_owned();
        push_chars(&mut out, trim_end(chars.as_slice()));
        out.append("\n");
        out
    } else {
        "".to_owned()
    }
}

/// Show where the machine stands.
pub fn render(d: &Debugger) -> (out: String)
    requires
        d.wf(),
    ensures
        out@ == position_text(d@),
{
    let machine: &Vm = d.vm();
    let mut out = "step ".to_owned();
    push_left(&mut out, d.step_count() as u64, 4);
    out.append(" line ");
    push_left(&mut out, d.current_line() as u64, 3);
    out.append(" pc ");
    push_left(&mut out, d.pc() as u64, 3);
    out.append(" ");
    match machine.current_op() {
        Some(op) => out.append(op.to_string().as_str()),
        None => out.append("<end>"),
    }
    if d.halted() {
        out.append(" [halted]");
    } else {
        out.append("");
    }
    out.append("\n");
    out.append(excerpt(d).as_str());
    out.append("  stack ");
    push_integers(&mut out, machine.stack.as_slice());
    out.append("\n  locals ");
    push_integers(&mut out, d.locals());
    out.append("\n");
    out
}

/// The name of a watched location.
pub open spec fn location_text(loc: WatchLoc) -> Seq<char> {
    match loc {
        WatchLoc::Global(i) => "global["@ + text::decimal(i as nat) + "]"@,
        WatchLoc::Mem(i) => "mem["@ + text::decimal(i as nat) + "]"@,
        WatchLoc::Local(i) => "local["@ + text::decimal(i as nat) + "]"@,
    }
}

/// The name of a watched location.
pub fn watch_name(loc: WatchLoc) -> (out: String)
    ensures
        out@ == location_text(loc),
{
    let (kind, i) = match loc {
        WatchLoc::Global(i) => ("global[", i),
        WatchLoc::Mem(i) => ("mem[", i),
        WatchLoc::Local(i) => ("local[", i),
    };
    let mut out = kind.to_owned();
    push_decimal(&mut out, i as u64);
    out.append("]");
    out
}

/// What is said of the reason for a stop.
pub open spec fn reason_text(d: Session, r: StopReason) -> Seq<char> {
    match r {
        StopReason::Breakpoint(addr) => "stopped at breakpoint (addr "@ + text::decimal(addr as nat)
            + ", line "@ + text::decimal(d.line(d.now()) as nat) + ")\n"@,
        StopReason::Watchpoint(hit) => "watchpoint "@ + location_text(hit.loc) + ": "@
            + text::signed_decimal(hit.old as int) + " -> "@ + text::signed_decimal(hit.new as int)
            + " at step "@ + text::decimal(hit.step as nat) + "\n"@,
        StopReason::Halted => "program halted\n"@,
        StopReason::Limit => "step limit reached\n"@,
        StopReason::Start => "reached the start of history\n"@,
        StopReason::Stepped | StopReason::Line => ""@,
    }
}

/// Why the debugger stopped and where.
pub open spec fn stop_text(d: Session, r: StopReason) -> Seq<char> {
    reason_text(d, r) + position_text(d)
}

/// Show why the debugger stopped and where.
pub fn report(d: &Debugger, reason: &StopReason) -> (out: String)
    requires
        d.wf(),
    ensures
        out@ == stop_text(d@, *reason),
{
    let mut out: String;
    match reason {
        StopReason::Breakpoint(addr) => {
            out = "stopped at breakpoint (addr ".to_owned();
            push_decimal(&mut out, *addr as u64);
            out.append(", line ");
            push_decimal(&mut out, d.current_line() as u64);
            out.append(")\n");
        },
        StopReason::Watchpoint(hit) => {
            out = "watchpoint ".to_owned();
            out.append(watch_name(hit.loc).as_str());
            out.append(": ");
            push_signed(&mut out, hit.old);
            out.append(" -> ");
            push_signed(&mut out, hit.new);
            out.append(" at step ");
            push_decimal(&mut out, hit.step as u64);
            out.append("\n");
        },
        StopReason::Halted => {
            out = "program halted\n".to_owned();
        },
        StopReason::Limit => {
            out = "step limit reached\n".to_owned();
        },
        StopReason::Start => {
            out = "reached the start of history\n".to_owned();
        },
        StopReason::Stepped | StopReason::Line => {
            out = "".to_owned();
        },
    }
    out.append(render(d).as_str());
    out
}

/// The full machine state, for the breakpoint addresses `addrs`.
pub open spec fn state_text(d: Session, addrs: Seq<usize>) -> Seq<char> {
    position_text(d) + "  globals "@ + integers(d.now().globals) + "\n  memory (nonzero) "@ + cells(
        d.now().memory,
    ) + "\n  output "@ + quoted_texts(d.now().output) + "\n"@ + (if addrs.len() > 0 {
        "  breakpoints (addr) "@ + addresses(addrs) + "\n"@
    } else {
        ""@
    })
}

/// Show the full machine state.
pub fn print_state(d: &Debugger) -> (out: String)
    requires
        d.wf(),
    ensures
        exists|addrs: Seq<usize>| #[trigger]
            debugger::lists_breaks(addrs, d@.breaks) && out@ == state_text(d@, addrs),
{
    let machine: &Vm = d.vm();
    let mut out = render(d);
    out.append("  globals ");
    push_integers(&mut out, machine.globals.as_slice());
    out.append("\n  memory (nonzero) ");
    push_cells(&mut out, &machine.memory);
    out.append("\n  output ");
    push_quoted_texts(&mut out, &machine.output);
    out.append("\n");
    let addrs: Vec<usize> = d.breakpoints();
    if addrs.len() > 0 {
        let mut line = "  breakpoints (addr) ".to_owned();
        push_addresses(&mut line, &addrs);
        line.append("\n");
        out.append(line.as_str());
    } else {
        out.append("");
    }
    assert(debugger::lists_breaks(addrs@, d@.breaks) && out@ == state_text(d@, addrs@));
    out
}

/// A call frame, as text.
pub open spec fn frame_text(i: nat, f: Activation) -> Seq<char> {
    "  #"@ + text::decimal(i) + " "@ + f.func + " return_pc="@ + text::decimal(f.return_pc)
        + " call_line="@ + text::decimal(f.call_line as nat) + " locals="@ + integers(f.locals)
        + "\n"@
}

/// The call frames, as text.
pub open spec fn frames_text(frames: Seq<Activation>) -> Seq<char>
    decreases frames.len(),
{
    if frames.len() == 0 {
        Seq::empty()
    } else {
        frames_text(frames.drop_last()) + frame_text((frames.len() - 1) as nat, frames.last())
    }
}

/// The call stack, as text.
pub open spec fn backtrace_text(d: Session) -> Seq<char> {
    "call stack (innermost last):\n"@ + frames_text(d.now().frames)
}

/// Show the call stack.
pub fn print_backtrace(d: &Debugger) -> (out: String)
    requires
        d.wf(),
    ensures
        out@ == backtrace_text(d@),
{
    let mut out = "call stack (innermost last):\n".to_owned();
    let frames: &[Frame] = d.backtrace();
    let ghost all = d@.now().frames;
    let mut i: usize = 0;
    assert(all.take(0) =~= Seq::empty());
    while i < frames.len()
        invariant
            i <= frames.len(),
            all == vm::activations(frames@),
            out@ =~= "call stack (innermost last):\n"@ + frames_text(all.take(i as int)),
        decreases frames.len() - i,
    {
        let f: &Frame = &frames[i];
        proof {
            assert(all.take(i + 1).drop_last() =~= all.take(i as int));
            assert(all.take(i + 1).last() == f@);
        }
        let mut line = "  #".to_owned();
        push_decimal(&mut line, i as u64);
        line.append(" ");
        line.append(f.func.as_str());
        line.append(" return_pc=");
        push_decimal(&mut line, f.return_pc as u64);
        line.append(" call_line=");
        push_decimal(&mut line, f.call_line as u64);
        line.append(" locals=");
        push_integers(&mut line, f.locals.as_slice());
        line.append("\n");
        assert(line@ == frame_text(i as nat, f@));
        out.append(line.as_str());
        i += 1;
    }
    assert(all.take(i as int) =~= all);
    out
}

/// Whether there is a breakpoint on a source line: at its first address.
pub open spec fn line_has_break(d: Session, line: u32) -> bool {
    exists|addr: usize| #[trigger]
        d.breaks.contains_key(addr) && debugger::is_first_address(
            d.listing.image.lines,
            line,
            Some(addr),
        )
}

/// The source line at index `i`, marked where the machine stands and where a
/// breakpoint is.
pub open spec fn marked_line(d: Session, i: int) -> Seq<char> {
    let line = (i + 1) as u32;
    (if line == d.line(d.now()) {
        "->"@
    } else {
        "  "@
    }) + (if line_has_break(d, line) {
        "*"@
    } else {
        " "@
    }) + right(line as nat, 3) + " | "@ + text::trimmed_end(d.listing.source[i]) + "\n"@
}

/// The first `n` source lines, marked.
pub open spec fn marked_lines(d: Session, n: nat) -> Seq<char>
    decreases n,
{
    if n == 0 {
        Seq::empty()
    } else {
        marked_lines(d, (n - 1) as nat) + marked_line(d, n - 1)
    }
}

/// Whether an address is in a list.
fn has_address(addrs: &Vec<usize>, addr: usize) -> (b: bool)
    ensures
        b == addrs@.contains(addr),
{
    let mut i: usize = 0;
    while i < addrs.len()
        invariant
            i <= addrs.len(),
            forall|k: int| 0 <= k < i ==> addrs@[k] != addr,
        decreases addrs.len() - i,
    {
        if addrs[i] == addr {
            return true;
        }
        i += 1;
    }
    false
}

/// Whether there is a breakpoint on a source line.
fn is_break_line(d: &Debugger, line: u32) -> (b: bool)
    ensures
        b == line_has_break(d@, line),
{
    match d.line_to_addr(line) {
        Some(addr) => {
            let addrs: Vec<usize> = d.breakpoints();
            let b: bool = has_address(&addrs, addr);
            proof {
                assert(addrs@.contains(addr) == addrs@.to_set().contains(addr));
                assert(b == d@.breaks.contains_key(addr));
                if line_has_break(d@, line) {
                    let other = choose|other: usize| #[trigger]
                        d@.breaks.contains_key(other) && debugger::is_first_address(
                            d@.listing.image.lines,
                            line,
                            Some(other),
                        );
                    assert(d@.listing.image.lines[other as int] == line);
                    assert(d@.listing.image.lines[addr as int] == line);
                    assert(other == addr);
                }
            }
            b
        },
        None => {
            assert(!line_has_break(d@, line));
            false
        },
    }
}

/// Show the source, marked where the machine stands and where breakpoints are.
pub fn print_source(d: &Debugger) -> (out: String)
    requires
        d.wf(),
    ensures
        out@ == marked_lines(d@, d@.listing.source.len()),
{
    let current: u32 = d.current_line();
    let source: &Vec<String> = &d.program().source;
    let mut out = String::new();
    let mut i: usize = 0;
    while i < source.len()
        invariant
            d.wf(),
            i <= source.len(),
            current == d@.line(d@.now()),
            vm::texts(source@) == d@.listing.source,
            out@ =~= marked_lines(d@, i as nat),
        decreases source.len() - i,
    {
        let number: u32 = (i + 1) as u32;
        let mut line = (if number == current {
            "->"
        } else {
            "  "
        }).to_owned();
        if is_break_line(d, number) {
            line.append("*");
        } else {
            line.append(" ");
        }
        push_right(&mut line, number as u64, 3);
        line.append(" | ");
        assert(d@.listing.source[i as int] == source@[i as int]@);
        let chars: Vec<char> = chars_of(source[i].as_str());
        push_chars(&mut line, trim_end(chars.as_slice()));
        line.append("\n");
        assert(line@ == marked_line(d@, i as int));
        out.append(line.as_str());
        i += 1;
    }
    out
}

/// The list of commands.
pub const HELP: &'static str = "commands:
  src                 show the program with the current line marked
  c                   continue to next breakpoint or watchpoint
  rc                  reverse-continue back to the previous breakpoint
  s / step            step to the next source line (into calls)
  n / next            step over (skip calls)
  out / finish        step out of the current function
  stepi / si          step a single instruction
  back / b            step backward one instruction (time travel)
  goto <step>         jump to an absolute step index (time travel)
  break <line> [if <expr>]   set a breakpoint, optionally conditional
  breaki <addr> [if <expr>]  set an address breakpoint, optionally conditional
  delete <line>       remove a breakpoint on a source line
  watch g<i>|m<i>|l<i> [if <expr>]  watch a global, cell, or local
  eval <expr>         evaluate an expression against the current state
  bt / where          show the call stack
  p / print           show full machine state
  reset               restart at step 0
  q / quit            exit

expressions use pc, depth, top (the stack top), globals[e], memory[e],
integers, + - * / %, == != < <= > >=, && || ! and parentheses
";

/// Where the condition of a command starts: the index of the first ` if `, the
/// length of the line when there is none.
pub open spec fn condition_start(line: Seq<char>) -> nat
    decreases line.len(),
{
    if line.len() < 4 {
        line.len()
    } else if line.take(4) == " if "@ {
        0
    } else {
        1 + condition_start(line.skip(1))
    }
}

/// A command without its condition.
pub open spec fn head(line: Seq<char>) -> Seq<char> {
    line.take(condition_start(line) as int)
}

/// The text of the condition of a command, if it has one.
pub open spec fn condition_text(line: Seq<char>) -> Option<Seq<char>> {
    let i = condition_start(line);
    if i < line.len() {
        Some(text::trimmed(line.skip(i as int + 4)))
    } else {
        None
    }
}

/// The condition of a command, or what is wrong with it.
pub open spec fn condition(line: Seq<char>) -> Result<Option<Expr>, Seq<char>> {
    match condition_text(line) {
        None => Ok(None),
        Some(s) => match grammar::expression(s) {
            Ok(e) => Ok(Some(e)),
            Err(m) => Err(m),
        },
    }
}

/// What a command asks for.
#[derive(Clone, Copy, Debug, PartialEq, Eq, Structural)]
pub enum Verb {
    /// Show the list of commands.
    Help,
    /// End the session.
    Quit,
    /// Show the source.
    Source,
    /// Restart at step 0.
    Reset,
    /// Run forward.
    Continue,
    /// Run backward.
    ReverseContinue,
    /// Step a single instruction.
    StepInstr,
    /// Step into.
    Step,
    /// Step over.
    Next,
    /// Step out.
    Out,
    /// Step back.
    Back,
    /// Go to a step.
    Goto,
    /// Set a breakpoint on a line.
    Break,
    /// Set a breakpoint on an address.
    BreakAddr,
    /// Remove a breakpoint from a line.
    Delete,
    /// Watch a location.
    Watch,
    /// Evaluate an expression.
    Eval,
    /// Show the call stack.
    Backtrace,
    /// Show the full machine state.
    State,
    /// None of the above.
    Unknown,
}

/// What a command word asks for.
pub open spec fn verb(word: Seq<char>) -> Verb {
    if word == "help"@ || word == "h"@ {
        Verb::Help
    } else if word == "quit"@ || word == "q"@ {
        Verb::Quit
    } else if word == "src"@ || word == "list"@ {
        Verb::Source
    } else if word == "reset"@ {
        Verb::Reset
    } else if word == "c"@ || word == "continue"@ {
        Verb::Continue
    } else if word == "rc"@ {
        Verb::ReverseContinue
    } else if word == "stepi"@ || word == "si"@ {
        Verb::StepInstr
    } else if word == "step"@ || word == "s"@ {
        Verb::Step
    } else if word == "next"@ || word == "n"@ {
        Verb::Next
    } else if word == "out"@ || word == "finish"@ {
        Verb::Out
    } else if word == "back"@ || word == "b"@ {
        Verb::Back
    } else if word == "goto"@ || word == "g"@ {
        Verb::Goto
    } else if word == "break"@ || word == "bp"@ {
        Verb::Break
    } else if word == "breaki"@ {
        Verb::BreakAddr
    } else if word == "delete"@ || word == "d"@ {
        Verb::Delete
    } else if word == "watch"@ || word == "w"@ {
        Verb::Watch
    } else if word == "eval"@ {
        Verb::Eval
    } else if word == "bt"@ || word == "where"@ {
        Verb::Backtrace
    } else if word == "print"@ || word == "p"@ {
        Verb::State
    } else {
        Verb::Unknown
    }
}

/// The location that a word names: `g`, `m` or `l` and an index.
pub open spec fn location(word: Seq<char>) -> Option<WatchLoc> {
    if word.len() == 0 {
        None
    } else {
        match text::parsed(word.skip(1), usize::MAX as nat) {
            None => None,
            Some(i) => match word[0] {
                'g' => Some(WatchLoc::Global(i as usize)),
                'm' => Some(WatchLoc::Mem(i as usize)),
                'l' => Some(WatchLoc::Local(i as usize)),
                _ => None,
            },
        }
    }
}

/// Find where the condition of a command starts.
fn find_condition(line: &[char]) -> (n: usize)
    ensures
        n == condition_start(line@),
        n <= line.len(),
        n < line.len() ==> n + 4 <= line.len(),
{
    let mut i: usize = 0;
    assert(line@.skip(0) =~= line@);
    while i < line.len() && line.len() - i >= 4
        invariant
            i <= line.len(),
            condition_start(line@) == i + condition_start(line@.skip(i as int)),
        ensures
            i <= line.len(),
            condition_start(line@) == i + condition_start(line@.skip(i as int)),
            line.len() - i < 4,
        decreases line.len() - i,
    {
        let window: &[char] = slice_subrange(line, i, i + 4);
        assert(window@ =~= line@.skip(i as int).take(4));
        if is_text(window, " if ") {
            return i;
        }
        assert(line@.skip(i as int).skip(1) =~= line@.skip(i + 1));
        i += 1;
    }
    line.len()
}

/// Tell what a command word asks for.
fn read_verb(word: &[char]) -> (v: Verb)
    ensures
        v == verb(word@),
{
    if is_text(word, "help") || is_text(word, "h") {
        Verb::Help
    } else if is_text(word, "quit") || is_text(word, "q") {
        Verb::Quit
    } else if is_text(word, "src") || is_text(word, "list") {
        Verb::Source
    } else if is_text(word, "reset") {
        Verb::Reset
    } else if is_text(word, "c") || is_text(word, "continue") {
        Verb::Continue
    } else if is_text(word, "rc") {
        Verb::ReverseContinue
    } else if is_text(word, "stepi") || is_text(word, "si") {
        Verb::StepInstr
    } else if is_text(word, "step") || is_text(word, "s") {
        Verb::Step
    } else if is_text(word, "next") || is_text(word, "n") {
        Verb::Next
    } else if is_text(word, "out") || is_text(word, "finish") {
        Verb::Out
    } else if is_text(word, "back") || is_text(word, "b") {
        Verb::Back
    } else if is_text(word, "goto") || is_text(word, "g") {
        Verb::Goto
    } else if is_text(word, "break") || is_text(word, "bp") {
        Verb::Break
    } else if is_text(word, "breaki") {
        Verb::BreakAddr
    } else if is_text(word, "delete") || is_text(word, "d") {
        Verb::Delete
    } else if is_text(word, "watch") || is_text(word, "w") {
        Verb::Watch
    } else if is_text(word, "eval") {
        Verb::Eval
    } else if is_text(word, "bt") || is_text(word, "where") {
        Verb::Backtrace
    } else if is_text(word, "print") || is_text(word, "p") {
        Verb::State
    } else {
        Verb::Unknown
    }
}

/// Parse a watched location.
pub fn parse_watch(word: &[char]) -> (loc: Option<WatchLoc>)
    ensures
        loc == location(word@),
{
    if word.len() == 0 {
        return None;
    }
    let rest: &[char] = slice_subrange(word, 1, word.len());
    assert(rest@ =~= word@.skip(1));
    match parse_usize(rest) {
        None => None,
        Some(i) => match word[0] {
            'g' => Some(WatchLoc::Global(i)),
            'm' => Some(WatchLoc::Mem(i)),
            'l' => Some(WatchLoc::Local(i)),
            _ => None,
        },
    }
}

/// What a command is answered with.
pub struct Reply {
    /// The text to show.
    pub text: String,
    /// Whether the session ends.
    pub quit: bool,
}

/// How a condition is repeated in an answer.
pub open spec fn condition_suffix(line: Seq<char>) -> Seq<char> {
    match condition_text(line) {
        Some(s) => " if "@ + s,
        None => ""@,
    }
}

/// Whether a forward run was answered.
pub open spec fn ran(before: Session, after: Session, goal: Goal, out: Seq<char>) -> bool {
    &&& after == (Session { steps: after.steps, ..before })
    &&& exists|r: StopReason| #[trigger]
        before.ends(goal, after.steps, r) && out == stop_text(after, r)
}

/// Whether a backward run was answered.
pub open spec fn ran_back(before: Session, after: Session, out: Seq<char>) -> bool {
    &&& after == (Session { steps: after.steps, ..before })
    &&& exists|r: StopReason| #[trigger]
        before.returns_to(after.steps, r) && out == stop_text(after, r)
}

/// Whether a step back was answered.
pub open spec fn stepped_back(before: Session, after: Session, out: Seq<char>) -> bool {
    if before.steps > 0 {
        &&& after == (Session { steps: (before.steps - 1) as nat, ..before })
        &&& out == position_text(after)
    } else {
        &&& after == before
        &&& out == "already at the start (step 0)\n"@
    }
}

/// Why a move to step `n` ends at step `m`: the step is reached, or the run is
/// shorter.
pub open spec fn arrival(n: nat, m: nat) -> StopReason {
    if m == n {
        StopReason::Stepped
    } else {
        StopReason::Halted
    }
}

/// Whether a move to the step that a word names was answered.
pub open spec fn went(
    before: Session,
    after: Session,
    arg: Option<Seq<char>>,
    out: Seq<char>,
) -> bool {
    match count_arg(arg, usize::MAX as nat) {
        Some(n) => {
            &&& after == (Session { steps: after.steps, ..before })
            &&& before.goes_to(n, after.steps, arrival(n, after.steps))
            &&& out == position_text(after)
        },
        None => after == before && out == "usage: goto <step>\n"@,
    }
}

/// The number not above `max` that a word denotes.
pub open spec fn count_arg(arg: Option<Seq<char>>, max: nat) -> Option<nat> {
    match arg {
        Some(s) => text::parsed(s, max),
        None => None,
    }
}

/// The line number that a word denotes.
pub open spec fn line_arg(arg: Option<Seq<char>>) -> Option<u32> {
    match count_arg(arg, u32::MAX as nat) {
        Some(n) => Some(n as u32),
        None => None,
    }
}

/// Whether a breakpoint on a line, whose first address is `found`, was answered.
pub open spec fn set_on_line(
    before: Session,
    after: Session,
    line: u32,
    found: Option<usize>,
    cond: Option<Expr>,
    suffix: Seq<char>,
    out: Seq<char>,
) -> bool {
    &&& debugger::is_first_address(before.listing.image.lines, line, found)
    &&& match found {
        Some(addr) => {
            &&& after == (Session { breaks: before.breaks.insert(addr, cond), ..before })
            &&& out == "breakpoint at line "@ + text::decimal(line as nat) + " (addr "@
                + text::decimal(addr as nat) + ")"@ + suffix + "\n"@
        },
        None => {
            &&& after == before
            &&& out == "no instruction on line "@ + text::decimal(line as nat) + "\n"@
        },
    }
}

/// Whether a breakpoint on the line that a word names was answered.
pub open spec fn broke_on_line(
    before: Session,
    after: Session,
    arg: Option<Seq<char>>,
    cond: Option<Expr>,
    suffix: Seq<char>,
    out: Seq<char>,
) -> bool {
    match line_arg(arg) {
        Some(line) => exists|found: Option<usize>| #[trigger]
            set_on_line(before, after, line, found, cond, suffix, out),
        None => after == before && out == "usage: break <line> [if <expr>]\n"@,
    }
}

/// Whether a breakpoint on the address that a word names was answered.
pub open spec fn broke_on_address(
    before: Session,
    after: Session,
    arg: Option<Seq<char>>,
    cond: Option<Expr>,
    suffix: Seq<char>,
    out: Seq<char>,
) -> bool {
    match count_arg(arg, usize::MAX as nat) {
        Some(addr) => {
            &&& after == (Session { breaks: before.breaks.insert(addr as usize, cond), ..before })
            &&& out == "breakpoint at addr "@ + text::decimal(addr) + suffix + "\n"@
        },
        None => after == before && out == "usage: breaki <addr> [if <expr>]\n"@,
    }
}

/// Whether the removal of a breakpoint from a line, whose first address is
/// `found`, was answered.
pub open spec fn cleared_on_line(
    before: Session,
    after: Session,
    line: u32,
    found: Option<usize>,
    out: Seq<char>,
) -> bool {
    &&& debugger::is_first_address(before.listing.image.lines, line, found)
    &&& if found is Some && before.breaks.contains_key(found->0) {
        &&& after == (Session { breaks: before.breaks.remove(found->0), ..before })
        &&& out == "removed breakpoint on line "@ + text::decimal(line as nat) + "\n"@
    } else {
        &&& after == before
        &&& out == "no breakpoint on line "@ + text::decimal(line as nat) + "\n"@
    }
}

/// Whether the removal of a breakpoint from the line that a word names was
/// answered.
pub open spec fn deleted(
    before: Session,
    after: Session,
    arg: Option<Seq<char>>,
    out: Seq<char>,
) -> bool {
    match line_arg(arg) {
        Some(line) => exists|found: Option<usize>| #[trigger]
            cleared_on_line(before, after, line, found, out),
        None => after == before && out == "usage: delete <line>\n"@,
    }
}

/// Whether a watchpoint on the location that a word names was answered.
pub open spec fn watching(
    before: Session,
    after: Session,
    arg: Option<Seq<char>>,
    cond: Option<Expr>,
    suffix: Seq<char>,
    out: Seq<char>,
) -> bool {
    let loc = match arg {
        Some(s) => location(s),
        None => None,
    };
    match loc {
        Some(loc) => {
            &&& after == (Session {
                watches: debugger::with_watch(before.watches, loc, cond),
                ..before
            })
            &&& out == "watching "@ + location_text(loc) + suffix + "\n"@
        },
        None => {
            &&& after == before
            &&& out == "usage: watch g<idx> | m<idx> | l<idx> [if <expr>]\n"@
        },
    }
}

/// What an evaluation is answered with: the command is the word `eval` and the
/// expression.
pub open spec fn evaluated(d: Session, command: Seq<char>) -> Seq<char> {
    match grammar::expression(text::trimmed(text::trimmed_start(command).skip(4))) {
        Ok(e) => "= "@ + text::signed_decimal(expr::value(e, expr::scope_of(d.now())) as int)
            + "\n"@,
        Err(m) => "bad expression: "@ + m + "\n"@,
    }
}

/// Whether a command without a faulty condition was answered.
pub open spec fn obeyed(
    before: Session,
    after: Session,
    line: Seq<char>,
    cond: Option<Expr>,
    out: Seq<char>,
) -> bool {
    let words = text::words(head(line));
    let arg = text::word(words, 1);
    let suffix = condition_suffix(line);
    let start = before.now();
    match verb(first_word(words)) {
        Verb::Help => after == before && out == HELP@,
        Verb::Quit => after == before && out == ""@,
        Verb::Source => after == before && out == marked_lines(
            before,
            before.listing.source.len(),
        ),
        Verb::Reset => after == before.restarted() && out == position_text(after),
        Verb::Continue => ran(before, after, Goal::Break, out),
        Verb::ReverseContinue => ran_back(before, after, out),
        Verb::StepInstr => after == before.next() && out == stop_text(after, before.step_reason()),
        Verb::Step => ran(before, after, Goal::Line(before.line(start)), out),
        Verb::Next => ran(
            before,
            after,
            Goal::Over(before.line(start), start.frames.len()),
            out,
        ),
        Verb::Out => ran(before, after, Goal::Out(start.frames.len()), out),
        Verb::Back => stepped_back(before, after, out),
        Verb::Goto => went(before, after, arg, out),
        Verb::Break => broke_on_line(before, after, arg, cond, suffix, out),
        Verb::BreakAddr => broke_on_address(before, after, arg, cond, suffix, out),
        Verb::Delete => deleted(before, after, arg, out),
        Verb::Watch => watching(before, after, arg, cond, suffix, out),
        Verb::Eval => after == before && out == evaluated(before, head(line)),
        Verb::Backtrace => after == before && out == backtrace_text(before),
        Verb::State => after == before && exists|addrs: Seq<usize>| #[trigger]
            debugger::lists_breaks(addrs, before.breaks) && out == state_text(before, addrs),
        Verb::Unknown => after == before && out == "unknown command `"@ + first_word(words)
            + "` (try `help`)\n"@,
    }
}

/// Whether what a command asks for can be allocated: the frame of every call that
/// it executes, and on a reset the data cells of the program.
pub open spec fn command_fits(d: Session, line: Seq<char>) -> bool {
    let words = text::words(head(line));
    let start = d.now();
    condition(line) is Ok ==> match verb(first_word(words)) {
        Verb::Reset => d.listing.loadable(),
        Verb::Continue => d.run_fits(Goal::Break),
        Verb::StepInstr => d.next_fits(),
        Verb::Step => d.run_fits(Goal::Line(d.line(start))),
        Verb::Next => d.run_fits(Goal::Over(d.line(start), start.frames.len())),
        Verb::Out => d.run_fits(Goal::Out(start.frames.len())),
        Verb::Goto => match count_arg(text::word(words, 1), usize::MAX as nat) {
            Some(n) => d.way_fits(n),
            None => true,
        },
        _ => true,
    }
}

/// Where a command leaves the session that asks for what cannot be allocated:
/// before the first call whose frame cannot, and on a reset where it was.
pub open spec fn held_up(before: Session, after: Session, line: Seq<char>) -> bool {
    let words = text::words(head(line));
    let start = before.now();
    &&& after == (Session { steps: after.steps, ..before })
    &&& match verb(first_word(words)) {
        Verb::Continue => before.stalls(Goal::Break, after.steps),
        Verb::Step => before.stalls(Goal::Line(before.line(start)), after.steps),
        Verb::Next => before.stalls(
            Goal::Over(before.line(start), start.frames.len()),
            after.steps,
        ),
        Verb::Out => before.stalls(Goal::Out(start.frames.len()), after.steps),
        Verb::Goto => count_arg(text::word(words, 1), usize::MAX as nat) matches Some(n)
            && before.way_stalls(n, after.steps),
        _ => after.steps == before.steps,
    }
}

/// The first word, nothing when there is none.
pub open spec fn first_word(words: Seq<Seq<char>>) -> Seq<char> {
    match text::word(words, 0) {
        Some(w) => w,
        None => Seq::empty(),
    }
}

/// Whether a command was answered.
pub open spec fn answered(
    before: Session,
    after: Session,
    line: Seq<char>,
    out: Seq<char>,
    quit: bool,
) -> bool {
    match condition(line) {
        Err(m) => after == before && out == "bad condition: "@ + m + "\n"@ && !quit,
        Ok(cond) => {
            &&& obeyed(before, after, line, cond, out)
            &&& quit == (verb(first_word(text::words(head(line)))) is Quit)
        },
    }
}

/// The contents of a piece of text that may be missing.
spec fn optional_piece(part: Option<&[char]>) -> Option<Seq<char>> {
    match part {
        Some(s) => Some(s@),
        None => None,
    }
}

/// Move to the step that a word names.
fn do_goto(d: &mut Debugger, arg: Option<&[char]>) -> (out: Option<String>)
    requires
        old(d).wf(),
    ensures
        final(d).wf(),
        final(d)@.listing == old(d)@.listing,
        match out {
            Some(out) => {
                &&& went(old(d)@, final(d)@, optional_piece(arg), out@)
                &&& count_arg(optional_piece(arg), usize::MAX as nat) matches Some(n) ==> old(
                    d,
                )@.way_fits(n)
            },
            None => {
                &&& final(d)@ == (Session { steps: final(d)@.steps, ..old(d)@ })
                &&& count_arg(optional_piece(arg), usize::MAX as nat) matches Some(n) && !old(
                    d,
                )@.way_fits(n) && old(d)@.way_stalls(n, final(d)@.steps)
            },
        },
{
    if let Some(word) = arg {
        if let Some(n) = parse_usize(word) {
            assert(count_arg(optional_piece(arg), usize::MAX as nat) == Some(n as nat));
            let r = match d.try_goto(n) {
                Some(r) => r,
                None => {
                    return None;
                },
            };
            let out = render(d);
            assert(r == arrival(n as nat, d@.steps));
            assert(old(d)@.goes_to(n as nat, d@.steps, arrival(n as nat, d@.steps)));
            return Some(out);
        }
    }
    Some("usage: goto <step>\n".to_owned())
}

/// Report a forward run that was tried.
fn report_run(
    d: &Debugger,
    r: Option<StopReason>,
    Ghost(before): Ghost<Session>,
    Ghost(goal): Ghost<Goal>,
) -> (out: Option<String>)
    requires
        d.wf(),
        d@ == (Session { steps: d@.steps, ..before }),
        before.tried(goal, d@.steps, r),
    ensures
        match out {
            Some(out) => before.run_fits(goal) && ran(before, d@, goal, out@),
            None => !before.run_fits(goal) && before.stalls(goal, d@.steps),
        },
{
    match r {
        Some(r) => {
            let out = report(d, &r);
            assert(before.ends(goal, d@.steps, r));
            Some(out)
        },
        None => None,
    }
}

/// Set a breakpoint on the line that a word names.
fn do_break(d: &mut Debugger, arg: Option<&[char]>, cond: Option<Expr>, suffix: &str) -> (out:
    String)
    requires
        old(d).wf(),
    ensures
        final(d).wf(),
        broke_on_line(old(d)@, final(d)@, optional_piece(arg), cond, suffix@, out@),
{
    if let Some(word) = arg {
        if let Some(line) = parse_u32(word) {
            let found: Option<usize> = match cond {
                Some(e) => d.add_break_line_cond(line, e),
                None => d.add_break_line(line),
            };
            let mut out: String;
            match found {
                Some(addr) => {
                    out = "breakpoint at line ".to_owned();
                    push_decimal(&mut out, line as u64);
                    out.append(" (addr ");
                    push_decimal(&mut out, addr as u64);
                    out.append(")");
                    out.append(suffix);
                    out.append("\n");
                },
                None => {
                    out = "no instruction on line ".to_owned();
                    push_decimal(&mut out, line as u64);
                    out.append("\n");
                },
            }
            assert(set_on_line(old(d)@, d@, line, found, cond, suffix@, out@));
            assert(line_arg(optional_piece(arg)) == Some(line));
            return out;
        }
    }
    "usage: break <line> [if <expr>]\n".to_owned()
}

/// Set a breakpoint on the address that a word names.
fn do_break_address(
    d: &mut Debugger,
    arg: Option<&[char]>,
    cond: Option<Expr>,
    suffix: &str,
) -> (out: String)
    requires
        old(d).wf(),
    ensures
        final(d).wf(),
        broke_on_address(old(d)@, final(d)@, optional_piece(arg), cond, suffix@, out@),
{
    if let Some(word) = arg {
        if let Some(addr) = parse_usize(word) {
            match cond {
                Some(e) => d.add_break_cond(addr, e),
                None => d.add_break(addr),
            }
            let mut out = "breakpoint at addr ".to_owned();
            push_decimal(&mut out, addr as u64);
            out.append(suffix);
            out.append("\n");
            return out;
        }
    }
    "usage: breaki <addr> [if <expr>]\n".to_owned()
}

/// Remove the breakpoint from the line that a word names.
fn do_delete(d: &mut Debugger, arg: Option<&[char]>) -> (out: String)
    requires
        old(d).wf(),
    ensures
        final(d).wf(),
        deleted(old(d)@, final(d)@, optional_piece(arg), out@),
{
    if let Some(word) = arg {
        if let Some(line) = parse_u32(word) {
            let found: Option<usize> = d.line_to_addr(line);
            let removed: bool = match found {
                Some(addr) => d.remove_break(addr),
                None => false,
            };
            let mut out = (if removed {
                "removed breakpoint on line "
            } else {
                "no breakpoint on line "
            }).to_owned();
            push_decimal(&mut out, line as u64);
            out.append("\n");
            if found.is_some() && !removed {
                assert(old(d)@.breaks.remove(found->0) =~= old(d)@.breaks);
                assert(d@ =~= old(d)@);
            }
            assert(cleared_on_line(old(d)@, d@, line, found, out@));
            assert(line_arg(optional_piece(arg)) == Some(line));
            return out;
        }
    }
    "usage: delete <line>\n".to_owned()
}

/// Watch the location that a word names.
fn do_watch(d: &mut Debugger, arg: Option<&[char]>, cond: Option<Expr>, suffix: &str) -> (out:
    String)
    requires
        old(d).wf(),
    ensures
        final(d).wf(),
        watching(old(d)@, final(d)@, optional_piece(arg), cond, suffix@, out@),
{
    if let Some(word) = arg {
        if let Some(loc) = parse_watch(word) {
            match cond {
                Some(e) => d.add_watch_cond(loc, e),
                None => d.add_watch(loc),
            }
            let mut out = "watching ".to_owned();
            out.append(watch_name(loc).as_str());
            out.append(suffix);
            out.append("\n");
            return out;
        }
    }
    "usage: watch g<idx> | m<idx> | l<idx> [if <expr>]\n".to_owned()
}

/// The first word of a text is no longer than what follows the white space.
proof fn lemma_first_word(s: Seq<char>)
    ensures
        text::words(s).len() > 0 ==> text::words(s)[0].len() <= text::trimmed_start(s).len(),
    decreases s.len(),
{
    if s.len() > 0 {
        if text::white_space(s[0]) {
            lemma_first_word(s.skip(1));
        } else {
            text::lemma_word_length(s);
        }
    }
}

/// Evaluate the expression of an `eval` command.
fn do_eval(d: &Debugger, command: &[char]) -> (out: String)
    requires
        d.wf(),
        text::trimmed_start(command@).len() >= 4,
    ensures
        out@ == evaluated(d@, command@),
{
    let rest: &[char] = trim_start(command);
    let source: &[char] = slice_subrange(rest, 4, rest.len());
    assert(source@ =~= rest@.skip(4));
    match parse_text(trim(source)) {
        Ok(e) => {
            let mut out = "= ".to_owned();
            push_signed(&mut out, e.eval(&d.eval_ctx()));
            out.append("\n");
            out
        },
        Err(m) => {
            let mut out = "bad expression: ".to_owned();
            out.append(m.as_str());
            out.append("\n");
            out
        },
    }
}

/// Obey a command whose condition has been parsed. Returns `None` when it asks
/// for what cannot be allocated.
#[verifier::spinoff_prover]
fn obey(
    d: &mut Debugger,
    line: &[char],
    command: &[char],
    words: &Vec<&[char]>,
    asked: Verb,
    cond: Option<Expr>,
    suffix: &str,
) -> (out: Option<String>)
    requires
        old(d).wf(),
        condition(line@) == Ok::<Option<Expr>, Seq<char>>(cond),
        command@ == head(line@),
        text::pieces(words@) == text::words(command@),
        asked == verb(first_word(text::pieces(words@))),
        suffix@ == condition_suffix(line@),
    ensures
        final(d).wf(),
        final(d)@.listing == old(d)@.listing,
        match out {
            Some(out) => {
                &&& command_fits(old(d)@, line@)
                &&& obeyed(old(d)@, final(d)@, line@, cond, out@)
            },
            None => {
                &&& !command_fits(old(d)@, line@)
                &&& held_up(old(d)@, final(d)@, line@)
            },
        },
{
    let arg: Option<&[char]> = nth_word(words, 1);
    assert(optional_piece(arg) == text::word(text::words(command@), 1));
    let ghost before = d@;
    let text: String = match asked {
        Verb::Help => HELP.to_owned(),
        Verb::Quit => "".to_owned(),
        Verb::Source => print_source(d),
        Verb::Reset => {
            if !d.program().loads() {
                return None;
            }
            d.reset();
            render(d)
        },
        Verb::Continue => {
            let r = d.try_cont();
            let ghost goal = Goal::Break;
            return report_run(d, r, Ghost(before), Ghost(goal));
        },
        Verb::ReverseContinue => {
            let r = d.run_back();
            let out = report(d, &r);
            assert(before.returns_to(d@.steps, r));
            out
        },
        Verb::StepInstr => {
            if !d.next_fits() {
                return None;
            }
            let r = d.step_instr();
            report(d, &r)
        },
        Verb::Step => {
            let r = d.try_step_line();
            let ghost goal = Goal::Line(before.line(before.now()));
            return report_run(d, r, Ghost(before), Ghost(goal));
        },
        Verb::Next => {
            let r = d.try_step_over();
            let ghost goal = Goal::Over(before.line(before.now()), before.now().frames.len());
            return report_run(d, r, Ghost(before), Ghost(goal));
        },
        Verb::Out => {
            let r = d.try_step_out();
            let ghost goal = Goal::Out(before.now().frames.len());
            return report_run(d, r, Ghost(before), Ghost(goal));
        },
        Verb::Back => {
            if d.backward() {
                render(d)
            } else {
                "already at the start (step 0)\n".to_owned()
            }
        },
        Verb::Goto => {
            return do_goto(d, arg);
        },
        Verb::Break => do_break(d, arg, cond, suffix),
        Verb::BreakAddr => do_break_address(d, arg, cond, suffix),
        Verb::Delete => do_delete(d, arg),
        Verb::Watch => do_watch(d, arg, cond, suffix),
        Verb::Eval => {
            proof {
                let first = first_word(text::words(command@));
                lemma_first_word(command@);
                lemma_eval_word(first);
                reveal_strlit("eval");
                assert(first.len() == 4);
                assert(text::words(command@).len() > 0);
            }
            do_eval(d, command)
        },
        Verb::Backtrace => print_backtrace(d),
        Verb::State => print_state(d),
        Verb::Unknown => {
            let mut out = "unknown command `".to_owned();
            if let Some(w) = nth_word(words, 0) {
                push_chars(&mut out, w);
            } else {
                assert(out@ + Seq::empty() =~= out@);
            }
            out.append("` (try `help`)\n");
            out
        },
    };
    Some(text)
}

/// Only the word `eval` asks for an evaluation.
proof fn lemma_eval_word(word: Seq<char>)
    requires
        verb(word) is Eval,
    ensures
        word == "eval"@,
{
}

/// Obey one command.
pub fn dispatch(d: &mut Debugger, line: &str) -> (reply: Reply)
    requires
        old(d).wf(),
        command_fits(old(d)@, line@),
    ensures
        final(d).wf(),
        final(d)@.listing == old(d)@.listing,
        answered(old(d)@, final(d)@, line@, reply.text@, reply.quit),
{
    try_dispatch(d, line).unwrap()
}

/// Obey one command, or return `None` when it asks for what cannot be allocated.
pub fn try_dispatch(d: &mut Debugger, line: &str) -> (reply: Option<Reply>)
    requires
        old(d).wf(),
    ensures
        final(d).wf(),
        final(d)@.listing == old(d)@.listing,
        match reply {
            Some(reply) => {
                &&& command_fits(old(d)@, line@)
                &&& answered(old(d)@, final(d)@, line@, reply.text@, reply.quit)
            },
            None => {
                &&& !command_fits(old(d)@, line@)
                &&& held_up(old(d)@, final(d)@, line@)
            },
        },
{
    let chars: Vec<char> = chars_of(line);
    let all: &[char] = chars.as_slice();
    // `... if <expr>` attaches a condition to break / breaki / watch.
    let i: usize = find_condition(all);
    let command: &[char] = slice_subrange(all, 0, i);
    assert(command@ =~= head(line@));
    let mut cond: Option<Expr> = None;
    let mut suffix = "".to_owned();
    if i < all.len() {
        let tail: &[char] = slice_subrange(all, i + 4, all.len());
        assert(tail@ =~= line@.skip(i + 4));
        let source: &[char] = trim(tail);
        match parse_text(source) {
            Ok(e) => {
                cond = Some(e);
            },
            Err(m) => {
                let mut text = "bad condition: ".to_owned();
                text.append(m.as_str());
                text.append("\n");
                return Some(Reply { text, quit: false });
            },
        }
        suffix = " if ".to_owned();
        push_chars(&mut suffix, source);
    }
    let words: Vec<&[char]> = split_words(command);
    let asked: Verb = match nth_word(&words, 0) {
        Some(w) => read_verb(w),
        None => read_verb(slice_subrange(all, 0, 0)),
    };
    assert(all@.subrange(0, 0) =~= Seq::empty());
    match obey(d, all, command, &words, asked, cond, suffix.as_str()) {
        Some(text) => Some(Reply { text, quit: asked == Verb::Quit }),
        None => None,
    }
}

/// Whether a line of input was answered: a blank line is passed over, any other
/// is a command.
pub open spec fn responded(
    before: Session,
    after: Session,
    input: Seq<char>,
    out: Seq<char>,
    quit: bool,
) -> bool {
    let line = text::trimmed(input);
    if line.len() == 0 {
        after == before && out == ""@ && !quit
    } else {
        answered(before, after, line, out, quit)
    }
}

/// Whether what a line of input asks for can be allocated.
pub open spec fn input_fits(d: Session, input: Seq<char>) -> bool {
    let line = text::trimmed(input);
    line.len() == 0 || command_fits(d, line)
}

/// Respond to one line of input.
pub fn respond(d: &mut Debugger, input: &str) -> (reply: Reply)
    requires
        old(d).wf(),
        input_fits(old(d)@, input@),
    ensures
        final(d).wf(),
        final(d)@.listing == old(d)@.listing,
        responded(old(d)@, final(d)@, input@, reply.text@, reply.quit),
{
    try_respond(d, input).unwrap()
}

/// Respond to one line of input, or return `None` when it asks for what cannot be
/// allocated.
pub fn try_respond(d: &mut Debugger, input: &str) -> (reply: Option<Reply>)
    requires
        old(d).wf(),
    ensures
        final(d).wf(),
        final(d)@.listing == old(d)@.listing,
        match reply {
            Some(reply) => {
                &&& input_fits(old(d)@, input@)
                &&& responded(old(d)@, final(d)@, input@, reply.text@, reply.quit)
            },
            None => {
                &&& !input_fits(old(d)@, input@)
                &&& held_up(old(d)@, final(d)@, text::trimmed(input@))
            },
        },
{
    let chars: Vec<char> = chars_of(input);
    let line: &[char] = trim(chars.as_slice());
    if line.len() == 0 {
        return Some(Reply { text: "".to_owned(), quit: false });
    }
    try_dispatch(d, string_of(line).as_str())
}

/// What is shown when a program has been loaded.
pub open spec fn greeting_text(d: Session, name: Seq<char>) -> Seq<char> {
    "Bloodhound time-travel debugger. Loaded `"@ + name
        + "`.\nType `help` for commands, `src` to see the program.\n\n"@ + position_text(d)
}

/// Show that a program has been loaded.
pub fn greeting(d: &Debugger, name: &str) -> (out: String)
    requires
        d.wf(),
    ensures
        out@ == greeting_text(d@, name@),
{
    let mut out = "Bloodhound time-travel debugger. Loaded `".to_owned();
    out.append(name);
    out.append("`.\nType `help` for commands, `src` to see the program.\n\n");
    out.append(render(d).as_str());
    out
}

/// Looking changes nothing: the commands that show or evaluate something, and
/// those that are not understood, leave the session as it was.
pub proof fn looking_changes_nothing(
    before: Session,
    after: Session,
    line: Seq<char>,
    out: Seq<char>,
    quit: bool,
)
    requires
        answered(before, after, line, out, quit),
        ({
            let v = verb(first_word(text::words(head(line))));
            v is Help || v is Quit || v is Source || v is Eval || v is Backtrace || v is State
                || v is Unknown
        }),
    ensures
        after == before,
{
}

/// Every command can be obeyed when the data cells of the program and every frame
/// that the code may make can be allocated.
pub proof fn fitting_code_obeys_every_command(d: Session, line: Seq<char>)
    requires
        d.listing.loadable(),
        machine::frames_fit(d.image.code),
    ensures
        command_fits(d, line),
        input_fits(d, line),
{
    debugger::fitting_code_never_stalls(d);
}

} // verus!
