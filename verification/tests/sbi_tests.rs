use erhino_kernel::sbi::{
    all_extensions, debug_console_write, debug_console_write_byte, get_impl_id, get_spec_version, hart_get_status,
    hart_start, hart_stop, hart_suspend, legacy_console_putchar, legacy_set_timer, probe_extension, sbi_result,
    send_ipi, set_timer, SbiCall, SbiError, SbiExtension, SbiFeatures,
};
use erhino_kernel::see::{SbiImplementation, SbiInfo};

fn call(eid: usize, fid: usize, arg0: usize, arg1: usize, arg2: usize, legacy: bool) -> SbiCall {
    SbiCall { eid, fid, arg0, arg1, arg2, legacy }
}

#[test]
fn error_codes_round_trip() {
    assert_eq!(SbiError::from_isize(0), Some(SbiError::Success));
    assert_eq!(SbiError::from_isize(-1), Some(SbiError::Failed));
    assert_eq!(SbiError::from_isize(-2), Some(SbiError::NotSupported));
    assert_eq!(SbiError::from_isize(-9), Some(SbiError::NoSharedMemory));
    assert_eq!(SbiError::Denied.code(), -4);
    assert_eq!(SbiError::from_isize(SbiError::AlreadyStopped.code()), Some(SbiError::AlreadyStopped));
}

#[test]
fn unknown_error_code() {
    assert_eq!(SbiError::from_isize(-42), None);
    assert_eq!(SbiError::from_isize(7), None);
    assert_eq!(sbi_result(-42, 0), Err(SbiError::NotSupported));
}

#[test]
fn results_from_registers() {
    assert_eq!(sbi_result(0, 17), Ok(17));
    assert_eq!(sbi_result(-3, 17), Err(SbiError::InvalidParameter));
    assert_eq!(sbi_result(-2, 0), Err(SbiError::NotSupported));
}

#[test]
fn extension_ids_and_indices() {
    assert_eq!(SbiExtension::DebugConsole.eid(), 0x4442434E);
    assert_eq!(SbiExtension::HartStateManagement.eid(), 0x48534D);
    assert_eq!(SbiExtension::Base.eid(), 0x10);
    assert_eq!(SbiExtension::LegacySetTimer.to_index(), 1);
    assert_eq!(SbiExtension::Time.to_index(), 1 << 9);
    assert_eq!(all_extensions().len(), 21);
    assert_eq!(all_extensions()[15], SbiExtension::DebugConsole);
}

#[test]
fn call_builders() {
    assert_eq!(legacy_set_timer(100), call(0, 0, 100, 0, 0, true));
    assert_eq!(legacy_console_putchar(b'A'), call(1, 0, 65, 0, 0, true));
    assert_eq!(debug_console_write(0x8000_0000, 12), call(0x4442434E, 0, 12, 0x8000_0000, 0, false));
    assert_eq!(debug_console_write_byte(b'x'), call(0x4442434E, 2, 120, 0, 0, false));
    assert_eq!(hart_start(2, 0x1000, 7), call(0x48534D, 0, 2, 0x1000, 7, false));
    assert_eq!(hart_stop(3), call(0x48534D, 1, 3, 0, 0, false));
    assert_eq!(hart_get_status(1), call(0x48534D, 2, 1, 0, 0, false));
    assert_eq!(hart_suspend(0, 0x2000, 9), call(0x48534D, 3, 0, 0x2000, 9, false));
    assert_eq!(set_timer(5000), call(0x54494D45, 0, 5000, 0, 0, false));
    assert_eq!(probe_extension(SbiExtension::Time), call(0x10, 3, 0x54494D45, 0, 0, false));
    assert_eq!(get_spec_version(), call(0x10, 0, 0, 0, 0, false));
    assert_eq!(get_impl_id(), call(0x10, 1, 0, 0, 0, false));
    assert_eq!(send_ipi(0b101, 0), call(0x735049, 0, 0b101, 0, 0, false));
}

#[test]
fn features_follow_probes() {
    let mut features = SbiFeatures::new();
    assert!(!features.is_time_supported());
    assert!(!features.is_debug_console_supported());
    features.init(Ok(1), Ok(0));
    assert!(features.is_debug_console_supported());
    assert!(!features.is_time_supported());
    features.init(Err(SbiError::Failed), Ok(3));
    assert!(features.is_debug_console_supported());
    assert!(features.is_time_supported());
}

#[test]
fn implementation_ids() {
    assert_eq!(SbiImplementation::from_id(0), SbiImplementation::BerkeleyBootLoader);
    assert_eq!(SbiImplementation::from_id(1), SbiImplementation::OpenSBI);
    assert_eq!(SbiImplementation::from_id(4), SbiImplementation::RustSBI);
}

#[test]
fn info_records_supported_extensions() {
    let mut probes = Vec::new();
    for e in all_extensions() {
        probes.push(if e == SbiExtension::Time || e == SbiExtension::Base { Ok(1) } else { Ok(0) });
    }
    let info = SbiInfo::new(&probes, Ok((1 << 24) | 2), Ok(1), Ok(0x10003), Ok(0), Ok(0), Ok(0));
    assert!(info.is_extension_supported(SbiExtension::Time));
    assert!(info.is_extension_supported(SbiExtension::Base));
    assert!(!info.is_extension_supported(SbiExtension::DebugConsole));
    assert_eq!(info.impl_id(), SbiImplementation::OpenSBI);
    assert_eq!(info.impl_version(), 0x10003);
    assert_eq!(info.spec_version().major, 1);
    assert_eq!(info.spec_version().minor, 2);
}
