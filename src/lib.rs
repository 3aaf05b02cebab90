//! Verified core of a small single-core x86_64 kernel runtime: the text-grid
//! writer, physical frame allocation, page mapping, the heap free list, the
//! cooperative task executor and the keyboard scancode queue.
use vstd::prelude::*;
use vstd::string::StringSliceAdditionalSpecFns;
use vstd::utf8::encode_utf8;

pub mod allocator;
pub mod interrupts;
pub mod keyboard;
pub mod memory;
pub mod paging;
pub mod task;
pub mod vga_buffer;

verus! {

/// Exit codes signalled to the emulator's debug-exit port by the test harness.
#[derive(Debug, Clone, Copy, PartialEq, Eq, Structural)]
pub enum QemuExitCode {
    Success,
    Failed,
}

impl QemuExitCode {
    /// The value written to the debug-exit port for this outcome.
    pub open spec fn spec_code(self) -> u32 {
        match self {
            QemuExitCode::Success => 0x10,
            QemuExitCode::Failed => 0x11,
        }
    }

    pub fn code(self) -> (r: u32)
        ensures
            r == self.spec_code(),
    {
        match self {
            QemuExitCode::Success => 0x10,
            QemuExitCode::Failed => 0x11,
        }
    }
}

/// A test that the harness can run. A failing test panics.
pub trait Testable {
    fn run(&self);
}

/// A test together with the name it was registered under.
pub struct TestCase<T> {
    pub name: String,
    pub test: T,
}

/// Decimal digits of `n`, most significant first, as ASCII bytes.
pub open spec fn decimal(n: nat) -> Seq<u8>
    decreases n,
{
    if n < 10 {
        seq![(48 + n) as u8]
    } else {
        decimal(n / 10).push((48 + n % 10) as u8)
    }
}

/// The line reported for one test that ran to completion.
pub open spec fn test_line(name: Seq<char>) -> Seq<u8> {
    encode_utf8(name) + "...\t".spec_bytes() + "[ok]\n".spec_bytes()
}

/// The lines reported for the tests named `names`, in order.
pub open spec fn test_lines(names: Seq<Seq<char>>) -> Seq<u8>
    decreases names.len(),
{
    if names.len() == 0 {
        Seq::empty()
    } else {
        test_lines(names.drop_last()) + test_line(names.last())
    }
}

/// The whole report of a run over tests named `names`.
pub open spec fn runner_report(names: Seq<Seq<char>>) -> Seq<u8> {
    "Running ".spec_bytes() + decimal(names.len()) + " tests\n".spec_bytes() + test_lines(names)
}

pub open spec fn case_names<T>(tests: Seq<TestCase<T>>) -> Seq<Seq<char>> {
    tests.map_values(|t: TestCase<T>| t.name@)
}

fn push_str(out: &mut Vec<u8>, s: &str)
    ensures
        final(out)@ == old(out)@ + s.spec_bytes(),
{
    let bytes = s.as_bytes();
    let mut i: usize = 0;
    while i < bytes.len()
        invariant
            i <= bytes@.len(),
            bytes@ == s.spec_bytes(),
            out@ == old(out)@ + bytes@.take(i as int),
        decreases bytes@.len() - i,
    {
        out.push(bytes[i]);
        i = i + 1;
        assert(out@ =~= old(out)@ + bytes@.take(i as int));
    }
    assert(bytes@.take(i as int) =~= bytes@);
}

fn push_decimal(out: &mut Vec<u8>, n: usize)
    ensures
        final(out)@ == old(out)@ + decimal(n as nat),
    decreases n,
{
    if n >= 10 {
        push_decimal(out, n / 10);
    }
    out.push(48 + (n % 10) as u8);
    assert(out@ =~= old(out)@ + decimal(n as nat));
}

/// Runs every test in order, appends the report to `out`, and returns the
/// exit code for a run in which every test came back.
pub fn test_runner<T: Testable>(tests: &[TestCase<T>], out: &mut Vec<u8>) -> (r: QemuExitCode)
    ensures
        r == QemuExitCode::Success,
        final(out)@ == old(out)@ + runner_report(case_names(tests@)),
{
    push_str(out, "Running ");
    push_decimal(out, tests.len());
    push_str(out, " tests\n");
    let ghost header = out@;
    let mut i: usize = 0;
    while i < tests.len()
        invariant
            i <= tests@.len(),
            out@ == header + test_lines(case_names(tests@).take(i as int)),
        decreases tests@.len() - i,
    {
        let case = &tests[i];
        push_str(out, case.name.as_str());
        push_str(out, "...\t");
        case.test.run();
        push_str(out, "[ok]\n");
        proof {
            let names = case_names(tests@);
            assert(names.take(i + 1).drop_last() =~= names.take(i as int));
            assert(names.take(i + 1).last() == tests@[i as int].name@);
        }
        i = i + 1;
    }
    assert(case_names(tests@).take(i as int) =~= case_names(tests@));
    QemuExitCode::Success
}

} // verus!
