use rust_os::interrupts::{init_idt, BREAKPOINT_VECTOR, DOUBLE_FAULT_VECTOR, PIC_1_OFFSET,
    PIC_2_OFFSET};
use rust_os::{init, test_runner, QemuExitCode};

#[test]
fn idt_has_trap_handlers_installed() {
    let idt = init_idt();
    assert!(idt.handlers[BREAKPOINT_VECTOR]);
    assert!(idt.handlers[DOUBLE_FAULT_VECTOR]);
    assert!(!idt.handlers[0]);
    assert!(!idt.handlers[255]);
    assert_eq!(idt.handlers.len(), 256);
}

#[test]
fn kernel_init_builds_the_idt() {
    let idt = init();
    assert!(idt.handlers[BREAKPOINT_VECTOR]);
    assert!(idt.handlers[DOUBLE_FAULT_VECTOR]);
}

#[test]
fn pic_offsets_clear_the_exception_vectors() {
    assert_eq!(PIC_1_OFFSET, 32);
    assert_eq!(PIC_2_OFFSET, 40);
}

#[test]
fn test_runner_reports_success_only_when_all_pass() {
    assert_eq!(test_runner(&vec![true, true, true]), QemuExitCode::Success);
    assert_eq!(test_runner(&vec![true, false, true]), QemuExitCode::Failed);
    assert_eq!(test_runner(&vec![false]), QemuExitCode::Failed);
    assert_eq!(test_runner(&Vec::new()), QemuExitCode::Success);
}

#[test]
fn qemu_exit_codes() {
    assert_eq!(QemuExitCode::Success.as_u32(), 0x10);
    assert_eq!(QemuExitCode::Failed.as_u32(), 0x11);
}
