# Bloodhound

A portable time-travel debugger, verified with Verus. Bloodhound runs a small
self-contained stack VM and lets you step backward through a program, scrub to
any point on its execution timeline, and watch state change and un-change.

Every instruction records what is needed to take it back, so the debugger can
jump to an earlier step and reconstruct the exact machine state that forward
execution had there. That this is exact is proved, for every program whose data
cells can be allocated and every step up to a call whose frame cannot.

## Layout

- `src/machine.rs` the mathematical model: what one instruction does, the record
  that takes it back, runs of the machine, and the laws that relate them.
- `src/vm.rs` the stack machine that implements the model, with programs, call
  frames, snapshots and undo records. `src/arith.rs` is its 64-bit arithmetic.
- `src/assembler.rs` the two-pass assembler. `src/disassembly.rs` proves that
  the text of instructions assembles back to them.
- `src/expr.rs`, `src/token.rs`, `src/grammar.rs` the expression language of
  conditions: evaluation, tokens, and a parser proved to accept exactly the
  language of its grammar. `src/wording.rs` proves that every expression without
  negative constants can be written down, `src/composition.rs` how the
  expression of a text follows from those of its parts.
- `src/debugger.rs` breakpoints, watchpoints, stepping, and time travel.
- `src/console.rs` the commands of the interactive session and the text they are
  answered with. `src/demo.rs` is the scripted demonstration.
- `src/samples.rs` built-in example programs. `src/text.rs` numbers, words and
  lines of text.
- `app/main.rs` the command line program: arguments, files, and the prompt.
- `tests/` unit tests, the laws on concrete values, and the debugger checked
  against a recorded forward trace.

## How the debugger is specified

The view of a `Debugger` is a `Session`: a program, the state at step 0, the
current step, the breakpoints and the watchpoints. The state at step `k` is
`Session::at(k)`, the `k`-fold step of the model. Every motion says at which step
it ends and why: `ends` for forward runs, `returns_to` for backward runs,
`goes_to` for jumps. Each of these has exactly one outcome.

A motion forward requires that the frame of every call on its way can be
allocated. `next_fits` tests this of one instruction. `try_cont` and its kin test
it as they go: they stop before the first call whose frame cannot be allocated,
and say so.

## What is trusted

Besides `vstd`, three functions of the standard library are taken at their
documented word, in `src/text.rs`: `String::push`, `char::is_alphabetic` and
`char::is_alphanumeric`.

## Assembly and conditions

```
.globals 2
main:
  push 0
  storeg 0       ; sum = 0
loop:
  loadg 0
  push 5
  lt
  jz done
  loadg 0
  push 1
  add
  storeg 0
  jmp loop
done:
  halt
```

```
break 9 if globals[0] > 2
watch g0 if globals[0] % 2 == 1
```

A condition that does not parse is rejected with a message that ends in the
offset of the fault: the number of characters before it.
