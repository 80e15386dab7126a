use bloodhound::assembler::assemble;
use bloodhound::samples::{ALL, FACTORIAL, MEMORY_DEMO, SUM_LOOP};
use bloodhound::vm::Vm;

fn run(src: &str) -> Vec<String> {
    let p = assemble(src).unwrap();
    let mut vm = Vm::new(&p);
    let mut n = 0;
    while vm.step().is_some() && n < 1_000_000 {
        n += 1;
    }
    vm.output
}

#[test]
fn factorial_prints_120() {
    assert_eq!(run(FACTORIAL), vec!["120".to_string()]);
}

#[test]
fn sum_loop_prints_15() {
    assert_eq!(run(SUM_LOOP), vec!["15".to_string()]);
}

#[test]
fn memory_demo_prints_77() {
    assert_eq!(run(MEMORY_DEMO), vec!["77".to_string()]);
}

#[test]
fn all_samples_assemble() {
    for (_, src) in ALL {
        assert!(assemble(src).is_ok());
    }
}
