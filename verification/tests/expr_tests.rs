use bloodhound::expr::{EvalCtx, Expr};

fn ctx<'a>(globals: &'a [i64], memory: &'a [i64]) -> EvalCtx<'a> {
    EvalCtx {
        pc: 7,
        depth: 2,
        top: -3,
        globals,
        memory,
    }
}

fn ev(src: &str, globals: &[i64], memory: &[i64]) -> i64 {
    Expr::parse(src).expect(src).eval(&ctx(globals, memory))
}

#[test]
fn arithmetic_and_precedence() {
    assert_eq!(ev("2 + 3 * 4", &[], &[]), 14);
    assert_eq!(ev("(2 + 3) * 4", &[], &[]), 20);
    assert_eq!(ev("10 - 2 - 3", &[], &[]), 5);
    assert_eq!(ev("-top", &[], &[]), 3);
    assert_eq!(ev("- - 5", &[], &[]), 5);
    assert_eq!(ev("7 % 3", &[], &[]), 1);
    assert_eq!(ev("10 / 0", &[], &[]), 0);
    assert_eq!(ev("10 % 0", &[], &[]), 0);
    assert_eq!(ev("0 - 9223372036854775807 - 1", &[], &[]), i64::MIN);
}

#[test]
fn comparisons_and_logic() {
    assert_eq!(ev("1 < 2", &[], &[]), 1);
    assert_eq!(ev("2 <= 1", &[], &[]), 0);
    assert_eq!(ev("3 == 3", &[], &[]), 1);
    assert_eq!(ev("3 != 3", &[], &[]), 0);
    assert_eq!(ev("1 && 0", &[], &[]), 0);
    assert_eq!(ev("1 || 0", &[], &[]), 1);
    assert_eq!(ev("!0", &[], &[]), 1);
    assert_eq!(ev("!(1 && 0) || 0", &[], &[]), 1);
    assert_eq!(ev("1 < 2 == 1", &[], &[]), 1);
}

#[test]
fn machine_variables_and_indexing() {
    let g = [10, 0, 30];
    let m = [1, 2, 3, 4, 5, 6, 7, 8];
    assert_eq!(ev("pc", &g, &m), 7);
    assert_eq!(ev("depth", &g, &m), 2);
    assert_eq!(ev("top", &g, &m), -3);
    assert_eq!(ev("globals[0] + globals[2]", &g, &m), 40);
    assert_eq!(ev("globals[9]", &g, &m), 0, "out of range reads 0");
    assert_eq!(ev("globals[0 - 1]", &g, &m), 0, "negative global index reads 0");
    assert_eq!(ev("memory[3]", &g, &m), 4);
    assert_eq!(ev("memory[8]", &g, &m), 1, "memory wraps like loadmem");
    assert_eq!(ev("memory[-1]", &g, &m), 8, "negative memory wraps");
    assert_eq!(ev("memory[pc % 8]", &g, &m), 8);
    assert_eq!(ev("top + globals[depth - 2]", &g, &m), -3 + 10);
}

#[test]
fn parse_errors() {
    let bad = [
        "",
        "1 +",
        "(1",
        "1)",
        "()",
        "1 2",
        "foo",
        "globals",
        "globals[x]",
        "globals[1",
        "pc & 1",
        "1 ? 2 : 3",
        "99999999999999999999",
        "pc pc",
        "&&",
    ];
    for src in bad {
        let res = Expr::parse(src);
        assert!(res.is_err(), "expected `{src}` to be rejected");
        assert!(!res.unwrap_err().message.is_empty());
    }
    // Accepted forms that must not error.
    for src in ["pc", "  pc  ", "globals[0]", "-pc + 1", "!pc", "((pc))"] {
        assert!(Expr::parse(src).is_ok(), "expected `{src}` to parse");
    }
}
