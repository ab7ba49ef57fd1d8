//! BDOS function numbers and the fixed addresses of the CP/M memory map.

use vstd::prelude::*;

verus! {

/// Record size in CP/M: every sequential or random transfer moves exactly
/// this many bytes.
pub const RECORD_SIZE: usize = 128;

/// Transient Program Area: where .COM programs load.
pub const TPA: u16 = 0x0100;

/// Conventional load address for a relocated console command processor.
pub const CCP: u16 = 0xDC00;

/// BDOS entry point intercepted by the engine.
pub const BDOS_ENTRY: u16 = 0xFE00;

/// Base of the BIOS jump table; each slot is three bytes.
pub const CBIOS_BASE: u16 = 0xFF00;

/// Default DMA buffer, also the command-line tail.
pub const DEFAULT_DMA: u16 = 0x0080;

/// Primary File Control Block area.
pub const FCB1: u16 = 0x005C;

/// Secondary File Control Block area.
pub const FCB2: u16 = 0x006C;

/// Command line tail: length byte, then text.
pub const CMDLINE: u16 = 0x0080;

/// CP/M 2.2 BDOS function numbers.
#[derive(Debug, Clone, Copy, PartialEq, Eq, Structural)]
pub enum BdosFunction {
    /// 0: System reset / warm boot
    SystemReset,
    /// 1: Console input (blocking)
    ConsoleInput,
    /// 2: Console output
    ConsoleOutput,
    /// 3: Reader input
    ReaderInput,
    /// 4: Punch output
    PunchOutput,
    /// 5: List output
    ListOutput,
    /// 6: Direct console I/O
    DirectConsoleIO,
    /// 7: Get IOBYTE
    GetIOByte,
    /// 8: Set IOBYTE
    SetIOByte,
    /// 9: Print string (`$` terminated)
    PrintString,
    /// 10: Read console buffer
    ReadConsoleBuffer,
    /// 11: Get console status
    ConsoleStatus,
    /// 12: Return version number
    ReturnVersion,
    /// 13: Reset disk system
    ResetDiskSystem,
    /// 14: Select disk
    SelectDisk,
    /// 15: Open file
    OpenFile,
    /// 16: Close file
    CloseFile,
    /// 17: Search for first
    SearchFirst,
    /// 18: Search for next
    SearchNext,
    /// 19: Delete file
    DeleteFile,
    /// 20: Read sequential
    ReadSequential,
    /// 21: Write sequential
    WriteSequential,
    /// 22: Make file (create)
    MakeFile,
    /// 23: Rename file
    RenameFile,
    /// 24: Return login vector
    ReturnLoginVector,
    /// 25: Return current disk
    ReturnCurrentDisk,
    /// 26: Set DMA address
    SetDmaAddress,
    /// 27: Get allocation vector
    GetAllocationVector,
    /// 28: Write protect disk
    WriteProtectDisk,
    /// 29: Get R/O vector
    GetReadOnlyVector,
    /// 30: Set file attributes
    SetFileAttributes,
    /// 31: Get disk parameters
    GetDiskParameters,
    /// 32: Get or set user code
    UserCode,
    /// 33: Read random
    ReadRandom,
    /// 34: Write random
    WriteRandom,
    /// 35: Compute file size
    ComputeFileSize,
    /// 36: Set random record
    SetRandomRecord,
    /// 37: Reset drive
    ResetDrive,
    /// 40: Write random with zero fill
    WriteRandomZeroFill,
}

/// The BDOS function a code in register C selects, or None for an unknown
/// code.
pub open spec fn spec_bdos_function(value: u8) -> Option<BdosFunction> {
    match value {
        0 => Some(BdosFunction::SystemReset),
        1 => Some(BdosFunction::ConsoleInput),
        2 => Some(BdosFunction::ConsoleOutput),
        3 => Some(BdosFunction::ReaderInput),
        4 => Some(BdosFunction::PunchOutput),
        5 => Some(BdosFunction::ListOutput),
        6 => Some(BdosFunction::DirectConsoleIO),
        7 => Some(BdosFunction::GetIOByte),
        8 => Some(BdosFunction::SetIOByte),
        9 => Some(BdosFunction::PrintString),
        10 => Some(BdosFunction::ReadConsoleBuffer),
        11 => Some(BdosFunction::ConsoleStatus),
        12 => Some(BdosFunction::ReturnVersion),
        13 => Some(BdosFunction::ResetDiskSystem),
        14 => Some(BdosFunction::SelectDisk),
        15 => Some(BdosFunction::OpenFile),
        16 => Some(BdosFunction::CloseFile),
        17 => Some(BdosFunction::SearchFirst),
        18 => Some(BdosFunction::SearchNext),
        19 => Some(BdosFunction::DeleteFile),
        20 => Some(BdosFunction::ReadSequential),
        21 => Some(BdosFunction::WriteSequential),
        22 => Some(BdosFunction::MakeFile),
        23 => Some(BdosFunction::RenameFile),
        24 => Some(BdosFunction::ReturnLoginVector),
        25 => Some(BdosFunction::ReturnCurrentDisk),
        26 => Some(BdosFunction::SetDmaAddress),
        27 => Some(BdosFunction::GetAllocationVector),
        28 => Some(BdosFunction::WriteProtectDisk),
        29 => Some(BdosFunction::GetReadOnlyVector),
        30 => Some(BdosFunction::SetFileAttributes),
        31 => Some(BdosFunction::GetDiskParameters),
        32 => Some(BdosFunction::UserCode),
        33 => Some(BdosFunction::ReadRandom),
        34 => Some(BdosFunction::WriteRandom),
        35 => Some(BdosFunction::ComputeFileSize),
        36 => Some(BdosFunction::SetRandomRecord),
        37 => Some(BdosFunction::ResetDrive),
        40 => Some(BdosFunction::WriteRandomZeroFill),
        _ => None,
    }
}

impl BdosFunction {
    /// Decode a function code from register C.
    pub fn from_code(value: u8) -> (r: Option<BdosFunction>)
        ensures
            r == spec_bdos_function(value),
    {
        match value {
            0 => Some(BdosFunction::SystemReset),
            1 => Some(BdosFunction::ConsoleInput),
            2 => Some(BdosFunction::ConsoleOutput),
            3 => Some(BdosFunction::ReaderInput),
            4 => Some(BdosFunction::PunchOutput),
            5 => Some(BdosFunction::ListOutput),
            6 => Some(BdosFunction::DirectConsoleIO),
            7 => Some(BdosFunction::GetIOByte),
            8 => Some(BdosFunction::SetIOByte),
            9 => Some(BdosFunction::PrintString),
            10 => Some(BdosFunction::ReadConsoleBuffer),
            11 => Some(BdosFunction::ConsoleStatus),
            12 => Some(BdosFunction::ReturnVersion),
            13 => Some(BdosFunction::ResetDiskSystem),
            14 => Some(BdosFunction::SelectDisk),
            15 => Some(BdosFunction::OpenFile),
            16 => Some(BdosFunction::CloseFile),
            17 => Some(BdosFunction::SearchFirst),
            18 => Some(BdosFunction::SearchNext),
            19 => Some(BdosFunction::DeleteFile),
            20 => Some(BdosFunction::ReadSequential),
            21 => Some(BdosFunction::WriteSequential),
            22 => Some(BdosFunction::MakeFile),
            23 => Some(BdosFunction::RenameFile),
            24 => Some(BdosFunction::ReturnLoginVector),
            25 => Some(BdosFunction::ReturnCurrentDisk),
            26 => Some(BdosFunction::SetDmaAddress),
            27 => Some(BdosFunction::GetAllocationVector),
            28 => Some(BdosFunction::WriteProtectDisk),
            29 => Some(BdosFunction::GetReadOnlyVector),
            30 => Some(BdosFunction::SetFileAttributes),
            31 => Some(BdosFunction::GetDiskParameters),
            32 => Some(BdosFunction::UserCode),
            33 => Some(BdosFunction::ReadRandom),
            34 => Some(BdosFunction::WriteRandom),
            35 => Some(BdosFunction::ComputeFileSize),
            36 => Some(BdosFunction::SetRandomRecord),
            37 => Some(BdosFunction::ResetDrive),
            40 => Some(BdosFunction::WriteRandomZeroFill),
            _ => None,
        }
    }
}

} // verus!
