//! Supervisor Binary Interface: the requests the kernel issues and the decoding of
//! what the firmware answers. The `ecall` itself is machine work and happens outside
//! this library; here every call is described by an [`SbiCall`] and every answer is
//! turned into an [`SbiResult`].
use vstd::prelude::*;

verus! {

/// Standard SBI error codes.
#[derive(Debug, Clone, Copy, PartialEq, Eq, Structural)]
pub enum SbiError {
    Success,
    Failed,
    NotSupported,
    InvalidParameter,
    Denied,
    InvalidAddress,
    AlreadyAvailable,
    AlreadyStarted,
    AlreadyStopped,
    NoSharedMemory,
}

/// The numeric code of each error.
pub open spec fn error_code(e: SbiError) -> int {
    match e {
        SbiError::Success => 0,
        SbiError::Failed => -1,
        SbiError::NotSupported => -2,
        SbiError::InvalidParameter => -3,
        SbiError::Denied => -4,
        SbiError::InvalidAddress => -5,
        SbiError::AlreadyAvailable => -6,
        SbiError::AlreadyStarted => -7,
        SbiError::AlreadyStopped => -8,
        SbiError::NoSharedMemory => -9,
    }
}

/// The error that an error register holding `code` denotes: a known code gives its
/// error, any other non-zero code is read as `NotSupported`.
pub open spec fn error_of_code(code: int) -> SbiError {
    if code == -1 {
        SbiError::Failed
    } else if code == -2 {
        SbiError::NotSupported
    } else if code == -3 {
        SbiError::InvalidParameter
    } else if code == -4 {
        SbiError::Denied
    } else if code == -5 {
        SbiError::InvalidAddress
    } else if code == -6 {
        SbiError::AlreadyAvailable
    } else if code == -7 {
        SbiError::AlreadyStarted
    } else if code == -8 {
        SbiError::AlreadyStopped
    } else if code == -9 {
        SbiError::NoSharedMemory
    } else if code == 0 {
        SbiError::Success
    } else {
        SbiError::NotSupported
    }
}

impl SbiError {
    /// The numeric code of this error.
    pub fn code(&self) -> (r: isize)
        ensures
            r == error_code(*self),
    {
        match self {
            SbiError::Success => 0,
            SbiError::Failed => -1,
            SbiError::NotSupported => -2,
            SbiError::InvalidParameter => -3,
            SbiError::Denied => -4,
            SbiError::InvalidAddress => -5,
            SbiError::AlreadyAvailable => -6,
            SbiError::AlreadyStarted => -7,
            SbiError::AlreadyStopped => -8,
            SbiError::NoSharedMemory => -9,
        }
    }

    /// The error whose code is `value`, if there is one.
    pub fn from_isize(value: isize) -> (r: Option<SbiError>)
        ensures
            r is Some <==> -9 <= value <= 0,
            r matches Some(e) ==> error_code(e) == value,
    {
        match value {
            0 => Some(SbiError::Success),
            -1 => Some(SbiError::Failed),
            -2 => Some(SbiError::NotSupported),
            -3 => Some(SbiError::InvalidParameter),
            -4 => Some(SbiError::Denied),
            -5 => Some(SbiError::InvalidAddress),
            -6 => Some(SbiError::AlreadyAvailable),
            -7 => Some(SbiError::AlreadyStarted),
            -8 => Some(SbiError::AlreadyStopped),
            -9 => Some(SbiError::NoSharedMemory),
            _ => None,
        }
    }
}

/// Each error's code reads back as that error: `from_isize(e.code())` is `Some(e)`,
/// and an error register holding the code of an error other than `Success` is
/// decoded as that error.
pub proof fn lemma_error_code_round_trip(e: SbiError)
    ensures
        -9 <= error_code(e) <= 0,
        error_of_code(error_code(e)) == e,
        forall|f: SbiError| #[trigger] error_code(f) == error_code(e) ==> f == e,
{
}

/// What a call into the firmware gives back.
pub type SbiResult = Result<isize, SbiError>;

/// Turns the two registers a firmware call leaves behind into a result: a zero error
/// register means success with the value register, any other code an error.
pub fn sbi_result(error: isize, value: isize) -> (r: SbiResult)
    ensures
        error == 0 ==> r == Ok::<isize, SbiError>(value),
        error != 0 ==> r == Err::<isize, SbiError>(error_of_code(error as int)),
{
    if error == 0 {
        Ok(value)
    } else {
        if let Some(res) = SbiError::from_isize(error) {
            Err(res)
        } else {
            Err(SbiError::NotSupported)
        }
    }
}

/// The SBI extensions the kernel knows of, in the order in which they are probed.
#[derive(Debug, Clone, Copy, PartialEq, Eq, Structural)]
pub enum SbiExtension {
    LegacySetTimer,
    LegacyConsolePutchar,
    LegacyConsoleGetchar,
    LegacyClearIPI,
    LegacySendIPI,
    LegacyRemoteFenceI,
    LegacyRemoteSFenceVma,
    LegacyRemoteSFenceVmaAsid,
    LegacySystemShutdown,
    Time,
    InterProcessInterrupt,
    RemoteFence,
    HartStateManagement,
    SystemReset,
    PerformanceMonitorUnit,
    DebugConsole,
    SystemSuspend,
    CollaborativeProcessorPerformanceControl,
    NestedAcceleration,
    StealTimeAccounting,
    Base,
}

/// The extension id that the specification assigns to each extension.
pub open spec fn extension_id(e: SbiExtension) -> usize {
    match e {
        SbiExtension::LegacySetTimer => 0x0,
        SbiExtension::LegacyConsolePutchar => 0x01,
        SbiExtension::LegacyConsoleGetchar => 0x02,
        SbiExtension::LegacyClearIPI => 0x03,
        SbiExtension::LegacySendIPI => 0x04,
        SbiExtension::LegacyRemoteFenceI => 0x05,
        SbiExtension::LegacyRemoteSFenceVma => 0x06,
        SbiExtension::LegacyRemoteSFenceVmaAsid => 0x07,
        SbiExtension::LegacySystemShutdown => 0x08,
        SbiExtension::Time => 0x54494D45,
        SbiExtension::InterProcessInterrupt => 0x735049,
        SbiExtension::RemoteFence => 0x52464E43,
        SbiExtension::HartStateManagement => 0x48534D,
        SbiExtension::SystemReset => 0x53525354,
        SbiExtension::PerformanceMonitorUnit => 0x504D55,
        SbiExtension::DebugConsole => 0x4442434E,
        SbiExtension::SystemSuspend => 0x53555350,
        SbiExtension::CollaborativeProcessorPerformanceControl => 0x43505043,
        SbiExtension::NestedAcceleration => 0x4E41434C,
        SbiExtension::StealTimeAccounting => 0x535441,
        SbiExtension::Base => 0x10,
    }
}

/// The position of each extension in the probing order.
pub open spec fn extension_ordinal(e: SbiExtension) -> nat {
    match e {
        SbiExtension::LegacySetTimer => 0,
        SbiExtension::LegacyConsolePutchar => 1,
        SbiExtension::LegacyConsoleGetchar => 2,
        SbiExtension::LegacyClearIPI => 3,
        SbiExtension::LegacySendIPI => 4,
        SbiExtension::LegacyRemoteFenceI => 5,
        SbiExtension::LegacyRemoteSFenceVma => 6,
        SbiExtension::LegacyRemoteSFenceVmaAsid => 7,
        SbiExtension::LegacySystemShutdown => 8,
        SbiExtension::Time => 9,
        SbiExtension::InterProcessInterrupt => 10,
        SbiExtension::RemoteFence => 11,
        SbiExtension::HartStateManagement => 12,
        SbiExtension::SystemReset => 13,
        SbiExtension::PerformanceMonitorUnit => 14,
        SbiExtension::DebugConsole => 15,
        SbiExtension::SystemSuspend => 16,
        SbiExtension::CollaborativeProcessorPerformanceControl => 17,
        SbiExtension::NestedAcceleration => 18,
        SbiExtension::StealTimeAccounting => 19,
        SbiExtension::Base => 20,
    }
}

/// The number of extensions in [`SbiExtension`].
pub const EXTENSION_COUNT: usize = 21;

impl SbiExtension {
    /// The extension id passed to the firmware.
    pub fn eid(&self) -> (r: usize)
        ensures
            r == extension_id(*self),
    {
        match self {
            SbiExtension::LegacySetTimer => 0x0,
            SbiExtension::LegacyConsolePutchar => 0x01,
            SbiExtension::LegacyConsoleGetchar => 0x02,
            SbiExtension::LegacyClearIPI => 0x03,
            SbiExtension::LegacySendIPI => 0x04,
            SbiExtension::LegacyRemoteFenceI => 0x05,
            SbiExtension::LegacyRemoteSFenceVma => 0x06,
            SbiExtension::LegacyRemoteSFenceVmaAsid => 0x07,
            SbiExtension::LegacySystemShutdown => 0x08,
            SbiExtension::Time => 0x54494D45,
            SbiExtension::InterProcessInterrupt => 0x735049,
            SbiExtension::RemoteFence => 0x52464E43,
            SbiExtension::HartStateManagement => 0x48534D,
            SbiExtension::SystemReset => 0x53525354,
            SbiExtension::PerformanceMonitorUnit => 0x504D55,
            SbiExtension::DebugConsole => 0x4442434E,
            SbiExtension::SystemSuspend => 0x53555350,
            SbiExtension::CollaborativeProcessorPerformanceControl => 0x43505043,
            SbiExtension::NestedAcceleration => 0x4E41434C,
            SbiExtension::StealTimeAccounting => 0x535441,
            SbiExtension::Base => 0x10,
        }
    }

    /// The position of this extension in the probing order.
    pub fn ordinal(&self) -> (r: usize)
        ensures
            r == extension_ordinal(*self),
            r < EXTENSION_COUNT,
    {
        match self {
            SbiExtension::LegacySetTimer => 0,
            SbiExtension::LegacyConsolePutchar => 1,
            SbiExtension::LegacyConsoleGetchar => 2,
            SbiExtension::LegacyClearIPI => 3,
            SbiExtension::LegacySendIPI => 4,
            SbiExtension::LegacyRemoteFenceI => 5,
            SbiExtension::LegacyRemoteSFenceVma => 6,
            SbiExtension::LegacyRemoteSFenceVmaAsid => 7,
            SbiExtension::LegacySystemShutdown => 8,
            SbiExtension::Time => 9,
            SbiExtension::InterProcessInterrupt => 10,
            SbiExtension::RemoteFence => 11,
            SbiExtension::HartStateManagement => 12,
            SbiExtension::SystemReset => 13,
            SbiExtension::PerformanceMonitorUnit => 14,
            SbiExtension::DebugConsole => 15,
            SbiExtension::SystemSuspend => 16,
            SbiExtension::CollaborativeProcessorPerformanceControl => 17,
            SbiExtension::NestedAcceleration => 18,
            SbiExtension::StealTimeAccounting => 19,
            SbiExtension::Base => 20,
        }
    }

    /// The bit that stands for this extension in a set of supported extensions.
    pub fn to_index(&self) -> (r: u32)
        ensures
            r == (1u32 << extension_ordinal(*self)),
    {
        1u32 << (self.ordinal() as u32)
    }
}

/// All extensions, in probing order.
pub open spec fn extension_at(i: int) -> SbiExtension {
    if i == 0 { SbiExtension::LegacySetTimer }
    else if i == 1 { SbiExtension::LegacyConsolePutchar }
    else if i == 2 { SbiExtension::LegacyConsoleGetchar }
    else if i == 3 { SbiExtension::LegacyClearIPI }
    else if i == 4 { SbiExtension::LegacySendIPI }
    else if i == 5 { SbiExtension::LegacyRemoteFenceI }
    else if i == 6 { SbiExtension::LegacyRemoteSFenceVma }
    else if i == 7 { SbiExtension::LegacyRemoteSFenceVmaAsid }
    else if i == 8 { SbiExtension::LegacySystemShutdown }
    else if i == 9 { SbiExtension::Time }
    else if i == 10 { SbiExtension::InterProcessInterrupt }
    else if i == 11 { SbiExtension::RemoteFence }
    else if i == 12 { SbiExtension::HartStateManagement }
    else if i == 13 { SbiExtension::SystemReset }
    else if i == 14 { SbiExtension::PerformanceMonitorUnit }
    else if i == 15 { SbiExtension::DebugConsole }
    else if i == 16 { SbiExtension::SystemSuspend }
    else if i == 17 { SbiExtension::CollaborativeProcessorPerformanceControl }
    else if i == 18 { SbiExtension::NestedAcceleration }
    else if i == 19 { SbiExtension::StealTimeAccounting }
    else { SbiExtension::Base }
}

/// Each extension stands at its own position in the probing order, so two
/// extensions never share a position or a bit.
pub proof fn lemma_extension_order(e: SbiExtension, f: SbiExtension)
    ensures
        extension_ordinal(e) < EXTENSION_COUNT,
        extension_at(extension_ordinal(e) as int) == e,
        extension_ordinal(e) == extension_ordinal(f) ==> e == f,
{
}

/// Every extension, in probing order.
pub fn all_extensions() -> (r: Vec<SbiExtension>)
    ensures
        r.len() == EXTENSION_COUNT,
        forall|i: int| 0 <= i < EXTENSION_COUNT ==> #[trigger] r@[i] == extension_at(i),
{
    vec![
        SbiExtension::LegacySetTimer,
        SbiExtension::LegacyConsolePutchar,
        SbiExtension::LegacyConsoleGetchar,
        SbiExtension::LegacyClearIPI,
        SbiExtension::LegacySendIPI,
        SbiExtension::LegacyRemoteFenceI,
        SbiExtension::LegacyRemoteSFenceVma,
        SbiExtension::LegacyRemoteSFenceVmaAsid,
        SbiExtension::LegacySystemShutdown,
        SbiExtension::Time,
        SbiExtension::InterProcessInterrupt,
        SbiExtension::RemoteFence,
        SbiExtension::HartStateManagement,
        SbiExtension::SystemReset,
        SbiExtension::PerformanceMonitorUnit,
        SbiExtension::DebugConsole,
        SbiExtension::SystemSuspend,
        SbiExtension::CollaborativeProcessorPerformanceControl,
        SbiExtension::NestedAcceleration,
        SbiExtension::StealTimeAccounting,
        SbiExtension::Base,
    ]
}

/// A firmware call to make: extension id, function id and three arguments. A legacy
/// call passes no function id.
#[derive(Debug, Clone, Copy, PartialEq, Eq, Structural)]
pub struct SbiCall {
    pub eid: usize,
    pub fid: usize,
    pub arg0: usize,
    pub arg1: usize,
    pub arg2: usize,
    pub legacy: bool,
}

/// The call with these fields.
pub open spec fn call_of(eid: usize, fid: usize, arg0: usize, arg1: usize, arg2: usize, legacy: bool) -> SbiCall {
    SbiCall { eid, fid, arg0, arg1, arg2, legacy }
}

fn sbi_call(eid: SbiExtension, fid: usize, arg0: usize, arg1: usize, arg2: usize) -> (r: SbiCall)
    ensures
        r == call_of(extension_id(eid), fid, arg0, arg1, arg2, false),
{
    SbiCall { eid: eid.eid(), fid, arg0, arg1, arg2, legacy: false }
}

fn legacy_call(eid: SbiExtension, arg0: usize, arg1: usize, arg2: usize) -> (r: SbiCall)
    ensures
        r == call_of(extension_id(eid), 0, arg0, arg1, arg2, true),
{
    SbiCall { eid: eid.eid(), fid: 0, arg0, arg1, arg2, legacy: true }
}

/// Legacy timer: fire at `time`.
pub fn legacy_set_timer(time: usize) -> (r: SbiCall)
    ensures
        r == call_of(0, 0, time, 0, 0, true),
{
    legacy_call(SbiExtension::LegacySetTimer, time, 0, 0)
}

/// Legacy console: print one byte.
pub fn legacy_console_putchar(char: u8) -> (r: SbiCall)
    ensures
        r == call_of(1, 0, char as usize, 0, 0, true),
{
    legacy_call(SbiExtension::LegacyConsolePutchar, char as usize, 0, 0)
}

/// Debug console: write `count` bytes found at `address`.
pub fn debug_console_write(address: usize, count: usize) -> (r: SbiCall)
    ensures
        r == call_of(0x4442434E, 0, count, address, 0, false),
{
    sbi_call(SbiExtension::DebugConsole, 0, count, address, 0)
}

/// Debug console: write one byte.
pub fn debug_console_write_byte(byte: u8) -> (r: SbiCall)
    ensures
        r == call_of(0x4442434E, 2, byte as usize, 0, 0, false),
{
    sbi_call(SbiExtension::DebugConsole, 2, byte as usize, 0, 0)
}

/// Start hart `hartid` at `start_addr` with `opaque` in its second argument register.
pub fn hart_start(hartid: usize, start_addr: usize, opaque: usize) -> (r: SbiCall)
    ensures
        r == call_of(0x48534D, 0, hartid, start_addr, opaque, false),
{
    sbi_call(SbiExtension::HartStateManagement, 0, hartid, start_addr, opaque)
}

/// Stop the calling hart.
pub fn hart_stop(hartid: usize) -> (r: SbiCall)
    ensures
        r == call_of(0x48534D, 1, hartid, 0, 0, false),
{
    sbi_call(SbiExtension::HartStateManagement, 1, hartid, 0, 0)
}

/// Ask for the state of hart `hartid`.
pub fn hart_get_status(hartid: usize) -> (r: SbiCall)
    ensures
        r == call_of(0x48534D, 2, hartid, 0, 0, false),
{
    sbi_call(SbiExtension::HartStateManagement, 2, hartid, 0, 0)
}

/// Suspend the calling hart.
pub fn hart_suspend(suspend_type: usize, resume_addr: usize, opaque: usize) -> (r: SbiCall)
    ensures
        r == call_of(0x48534D, 3, suspend_type, resume_addr, opaque, false),
{
    sbi_call(SbiExtension::HartStateManagement, 3, suspend_type, resume_addr, opaque)
}

/// Time extension: fire at `time`.
pub fn set_timer(time: usize) -> (r: SbiCall)
    ensures
        r == call_of(0x54494D45, 0, time, 0, 0, false),
{
    sbi_call(SbiExtension::Time, 0, time, 0, 0)
}

/// Ask whether extension `eid` is available (the answer is 0 when it is not).
pub fn probe_extension(eid: SbiExtension) -> (r: SbiCall)
    ensures
        r == call_of(0x10, 3, extension_id(eid), 0, 0, false),
{
    sbi_call(SbiExtension::Base, 3, eid.eid(), 0, 0)
}

/// Base extension: the specification version.
pub fn get_spec_version() -> (r: SbiCall)
    ensures
        r == call_of(0x10, 0, 0, 0, 0, false),
{
    sbi_call(SbiExtension::Base, 0, 0, 0, 0)
}

/// Base extension: the implementation id.
pub fn get_impl_id() -> (r: SbiCall)
    ensures
        r == call_of(0x10, 1, 0, 0, 0, false),
{
    sbi_call(SbiExtension::Base, 1, 0, 0, 0)
}

/// Base extension: the implementation version.
pub fn get_impl_version() -> (r: SbiCall)
    ensures
        r == call_of(0x10, 2, 0, 0, 0, false),
{
    sbi_call(SbiExtension::Base, 2, 0, 0, 0)
}

/// Base extension: the machine vendor id.
pub fn get_mach_vendor_id() -> (r: SbiCall)
    ensures
        r == call_of(0x10, 4, 0, 0, 0, false),
{
    sbi_call(SbiExtension::Base, 4, 0, 0, 0)
}

/// Base extension: the machine architecture id.
pub fn get_mach_arch_id() -> (r: SbiCall)
    ensures
        r == call_of(0x10, 5, 0, 0, 0, false),
{
    sbi_call(SbiExtension::Base, 5, 0, 0, 0)
}

/// Base extension: the machine implementation id.
pub fn get_mach_impl_id() -> (r: SbiCall)
    ensures
        r == call_of(0x10, 6, 0, 0, 0, false),
{
    sbi_call(SbiExtension::Base, 6, 0, 0, 0)
}

/// Send an inter-processor interrupt to the harts in `hart_mask`, counted from
/// `hart_mask_base` (-1 meaning all harts).
pub fn send_ipi(hart_mask: usize, hart_mask_base: isize) -> (r: SbiCall)
    ensures
        r == call_of(0x735049, 0, hart_mask, hart_mask_base as usize, 0, false),
{
    sbi_call(SbiExtension::InterProcessInterrupt, 0x0, hart_mask, hart_mask_base as usize, 0)
}

/// What the kernel learnt at start-up about the optional extensions it uses.
#[derive(Debug, Clone, Copy, PartialEq, Eq, Structural)]
pub struct SbiFeatures {
    pub time_supported: bool,
    pub debug_console_supported: bool,
}

/// Whether a probe answer says "available": success with a non-zero value.
pub open spec fn probe_says_available(r: SbiResult) -> bool {
    r matches Ok(v) && v != 0
}

impl SbiFeatures {
    /// The features before any probing: none.
    pub fn new() -> (r: SbiFeatures)
        ensures
            !r.time_supported,
            !r.debug_console_supported,
    {
        SbiFeatures { time_supported: false, debug_console_supported: false }
    }

    /// Records the answers to probing the debug console and the time extension. A
    /// failed probe leaves the feature as it was.
    pub fn init(&mut self, debug_console_probe: SbiResult, time_probe: SbiResult)
        ensures
            final(self).debug_console_supported == (if debug_console_probe is Ok {
                probe_says_available(debug_console_probe)
            } else {
                old(self).debug_console_supported
            }),
            final(self).time_supported == (if time_probe is Ok {
                probe_says_available(time_probe)
            } else {
                old(self).time_supported
            }),
    {
        if let Ok(res) = debug_console_probe {
            self.debug_console_supported = res != 0;
        }
        if let Ok(res) = time_probe {
            self.time_supported = res != 0;
        }
    }

    pub fn is_debug_console_supported(&self) -> (r: bool)
        ensures
            r == self.debug_console_supported,
    {
        self.debug_console_supported
    }

    pub fn is_time_supported(&self) -> (r: bool)
        ensures
            r == self.time_supported,
    {
        self.time_supported
    }
}

} // verus!
