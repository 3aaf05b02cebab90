use std::cell::Cell;

use blog_os::{test_runner, QemuExitCode, TestCase, Testable};

struct Counting<'a> {
    runs: &'a Cell<u32>,
}

impl Testable for Counting<'_> {
    fn run(&self) {
        self.runs.set(self.runs.get() + 1);
    }
}

#[test]
fn runner_reports_each_test_and_succeeds() {
    let runs = Cell::new(0);
    let tests = vec![
        TestCase { name: String::from("trivial_assertion"), test: Counting { runs: &runs } },
        TestCase { name: String::from("second"), test: Counting { runs: &runs } },
    ];
    let mut out = Vec::new();
    assert_eq!(test_runner(&tests, &mut out), QemuExitCode::Success);
    assert_eq!(runs.get(), 2);
    assert_eq!(
        String::from_utf8(out).unwrap(),
        "Running 2 tests\ntrivial_assertion...\t[ok]\nsecond...\t[ok]\n"
    );
}

#[test]
fn runner_counts_in_decimal() {
    let runs = Cell::new(0);
    let tests: Vec<TestCase<Counting>> =
        (0..12).map(|i| TestCase { name: format!("t{i}"), test: Counting { runs: &runs } }).collect();
    let mut out = b"> ".to_vec();
    test_runner(&tests, &mut out);
    let text = String::from_utf8(out).unwrap();
    assert!(text.starts_with("> Running 12 tests\nt0...\t[ok]\n"));
    assert!(text.ends_with("t11...\t[ok]\n"));
    assert_eq!(runs.get(), 12);
}

#[test]
fn runner_with_no_tests() {
    let tests: Vec<TestCase<Counting>> = Vec::new();
    let mut out = Vec::new();
    test_runner(&tests, &mut out);
    assert_eq!(out, b"Running 0 tests\n".to_vec());
}

#[test]
fn exit_codes() {
    assert_eq!(QemuExitCode::Success.code(), 0x10);
    assert_eq!(QemuExitCode::Failed.code(), 0x11);
}
