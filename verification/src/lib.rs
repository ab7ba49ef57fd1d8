//! CP/M 2.2 execution engine: a BDOS/BIOS syscall layer over a 64 KiB guest
//! address space, a layered drive filesystem with copy-on-write overlays, a
//! package loader that materializes drive contents from archives, and a
//! console abstraction.

pub mod error;
pub mod drive_fs;
pub mod memory_drive;
pub mod overlay_drive;
pub mod fcb;
pub mod bdos;
pub mod console;
pub mod emulator;
pub mod package;
pub mod workspace;

pub use error::{CpmError, CpmResult};
pub use drive_fs::{to_8_3, DriveFS};
pub use memory_drive::MemoryDriveFS;
pub use overlay_drive::OverlayDriveFS;
pub use fcb::Fcb;
pub use bdos::BdosFunction;
pub use console::{CpmConsole, HeadlessConsole};
pub use emulator::{BdosReply, CpmEmulator, OpenFile, StepAction};
pub use package::{action_matches_file, expand_submit_template, load_package, load_packages,
    FileEntry, InteractiveStep, LoadedPackage, PackageAction, PackageDriveFS, PackageManifest};
pub use workspace::{drive_index, find_shell, AnyDrive, DriveConfig, FileChangeEvent, ShellInfo,
    Workspace};

use vstd::prelude::*;

verus! {

/// Reason a guest program stopped running.
#[derive(Debug, Clone, PartialEq, Eq)]
pub enum ExitReason {
    /// Warm boot (JP 0 or BDOS function 0) with no shell registered.
    WarmBoot,
    /// The CPU executed HALT.
    Halt,
    /// A host-side error.
    Error(String),
}

/// Information about a finished guest run.
#[derive(Debug, Clone)]
pub struct CpmExitInfo {
    pub reason: ExitReason,
    pub t_states: u64,
    pub pc: u16,
}

} // verus!
