use boot_memory::boot::BootStage;
use boot_memory::debugcon::{Printer, QEMU_DEBUGCON_PORT};
use boot_memory::error::ErrorKind;

#[test]
fn boot_goes_through_its_stages() {
    let stage = BootStage::Entered;
    let stage = stage.advance(Ok(()));
    assert_eq!(stage, BootStage::InfoRead);
    let stage = stage.advance(Ok(()));
    assert_eq!(stage, BootStage::HeapReady);
    let stage = stage.advance(Ok(()));
    assert_eq!(stage, BootStage::HeapReady);
}

#[test]
fn failure_halts_at_every_stage() {
    let kinds = [ErrorKind::MalformedBootInfo, ErrorKind::OutOfMemory, ErrorKind::InvalidFree];
    for stage in [BootStage::Entered, BootStage::InfoRead, BootStage::HeapReady] {
        for kind in kinds {
            assert_eq!(stage.advance(Err(kind)), BootStage::Halted(kind));
        }
    }
}

#[test]
fn halt_is_final() {
    let halted = BootStage::Halted(ErrorKind::MalformedBootInfo);
    assert_eq!(halted.advance(Ok(())), halted);
    assert_eq!(halted.advance(Err(ErrorKind::OutOfMemory)), halted);
    assert_eq!(halted.advance(Err(ErrorKind::MalformedBootInfo)), halted);
}

#[test]
fn first_failure_is_the_one_reported() {
    let outcomes = [Ok(()), Err(ErrorKind::OutOfMemory), Ok(()), Err(ErrorKind::InvalidFree)];
    let mut stage = BootStage::Entered;
    for outcome in outcomes {
        stage = stage.advance(outcome);
    }
    assert_eq!(stage, BootStage::Halted(ErrorKind::OutOfMemory));
}

#[test]
fn every_kind_has_its_own_line() {
    assert_eq!(ErrorKind::MalformedBootInfo.describe(), "malformed boot information");
    assert_eq!(ErrorKind::OutOfMemory.describe(), "out of memory");
    assert_eq!(ErrorKind::InvalidFree.describe(), "invalid free");
}

#[test]
fn printer_sends_the_bytes_of_the_text_in_order() {
    let mut printer = Printer;
    assert_eq!(printer.write_str("Hello World from Rust Kernel\n"), b"Hello World from Rust Kernel\n");
    assert_eq!(printer.write_str(""), b"");
    assert_eq!(printer.write_str("a\u{e9}z"), &[0x61, 0xc3, 0xa9, 0x7a]);
}

#[test]
fn debug_console_is_at_port_e9() {
    assert_eq!(QEMU_DEBUGCON_PORT, 0xe9);
}
