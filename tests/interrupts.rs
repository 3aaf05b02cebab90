use blog_os::interrupts::{
    end_of_interrupt, exception_action, exception_of_vector, CpuException, FaultAction,
    InterruptIndex,
};

#[test]
fn hardware_interrupts_sit_above_exceptions() {
    assert_eq!(InterruptIndex::Timer.as_u8(), 32);
    assert_eq!(InterruptIndex::Keyboard.as_u8(), 33);
}

#[test]
fn end_of_interrupt_targets() {
    let timer = end_of_interrupt(32);
    assert!(timer.primary && !timer.secondary);
    let secondary = end_of_interrupt(44);
    assert!(secondary.primary && secondary.secondary);
    let exception = end_of_interrupt(14);
    assert!(!exception.primary && !exception.secondary);
    assert!(!end_of_interrupt(48).primary);
    assert!(end_of_interrupt(47).secondary);
}

#[test]
fn only_breakpoint_resumes() {
    assert_eq!(exception_action(CpuException::Breakpoint), FaultAction::Resume);
    for e in [
        CpuException::InvalidOpcode,
        CpuException::DoubleFault,
        CpuException::GeneralProtection,
        CpuException::PageFault,
    ] {
        assert_eq!(exception_action(e), FaultAction::Halt);
    }
}

#[test]
fn exception_vectors() {
    assert_eq!(exception_of_vector(3), Some(CpuException::Breakpoint));
    assert_eq!(exception_of_vector(8), Some(CpuException::DoubleFault));
    assert_eq!(exception_of_vector(14), Some(CpuException::PageFault));
    assert_eq!(exception_of_vector(32), None);
}
