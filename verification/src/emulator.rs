//! The CP/M engine: 64 KiB guest memory, the drive table, the open-file
//! table, the directory search cursor, DMA, and the BDOS/BIOS dispatch.
//!
//! The engine holds everything but the CPU registers. The host drives the
//! CPU one instruction at a time; before each instruction it calls
//! [`CpmEmulator::on_pc`] with the program counter and the registers the
//! dispatch reads, and applies the returned action to the CPU.

use vstd::prelude::*;
use vstd::slice::slice_to_vec;
use vstd::string::{StrSliceExecFns, StringSliceAdditionalSpecFns};

use crate::bdos::{BdosFunction, spec_bdos_function, BDOS_ENTRY, CBIOS_BASE, DEFAULT_DMA, TPA};
use crate::console::CpmConsole;
use crate::drive_fs::{normalize_83, DriveFS};
use crate::fcb::{upper_byte, Fcb};
use crate::ExitReason;

verus! {

/// Memory with `data` written in at `at`; anything past the top of memory
/// is clipped.
pub open spec fn splice(m: Seq<u8>, at: int, data: Seq<u8>) -> Seq<u8> {
    Seq::new(
        m.len(),
        |i: int|
            if at <= i < at + data.len() {
                data[i - at]
            } else {
                m[i]
            },
    )
}

/// True of the first byte of each three-byte BIOS jump slot.
pub open spec fn is_ret_slot(i: int) -> bool {
    0xFF00 <= i < 0xFF33 && (i - 0xFF00) % 3 == 0
}

/// Memory with the fixed low vectors reinstalled: JP 0 at 0x0000, IOBYTE and
/// current drive zeroed, JP BDOS at 0x0005, RET at the BDOS entry, RET in
/// each BIOS slot.
pub open spec fn init_vectors(m: Seq<u8>) -> Seq<u8> {
    Seq::new(
        m.len(),
        |i: int|
            if i == 0 {
                0xC3u8
            } else if i == 1 || i == 2 || i == 3 || i == 4 {
                0u8
            } else if i == 5 {
                0xC3u8
            } else if i == 6 {
                0u8
            } else if i == 7 {
                0xFEu8
            } else if i == 0xFE00 {
                0xC9u8
            } else if is_ret_slot(i) {
                0xC9u8
            } else {
                m[i]
            },
    )
}

/// Memory after a warm boot: the shell reloaded at its address, the low
/// vectors reinstalled, and the command-line length byte cleared.
pub open spec fn warm_mem(m: Seq<u8>, shell: Seq<u8>, at: int) -> Seq<u8> {
    init_vectors(splice(m, at, shell)).update(0x80, 0u8)
}

/// Memory after storing a command line: length (at most 127) at 0x0080, the
/// uppercased bytes at 0x0081 on.
pub open spec fn args_mem(m: Seq<u8>, bytes: Seq<u8>) -> Seq<u8> {
    let len: int = if bytes.len() <= 127 {
        bytes.len() as int
    } else {
        127
    };
    Seq::new(
        m.len(),
        |i: int|
            if i == 0x80 {
                len as u8
            } else if 0x81 <= i < 0x81 + len {
                upper_byte(bytes[i - 0x81])
            } else {
                m[i]
            },
    )
}

/// The 128 bytes a record read transfers: the file's bytes from `offset`,
/// padded with 0x1A after the end of the file.
pub open spec fn record_bytes(data: Seq<u8>, offset: int) -> Seq<u8> {
    Seq::new(
        128,
        |i: int|
            if offset + i < data.len() {
                data[offset + i]
            } else {
                0x1Au8
            },
    )
}

/// A file's bytes after writing record `rec` at `offset`: extended with 0x1A
/// to `offset + 128` if needed, the record window replaced.
pub open spec fn written_data(data: Seq<u8>, offset: int, rec: Seq<u8>) -> Seq<u8> {
    Seq::new(
        if data.len() >= offset + 128 {
            data.len()
        } else {
            (offset + 128) as nat
        },
        |i: int|
            if offset <= i < offset + 128 {
                rec[i - offset]
            } else if i < data.len() {
                data[i]
            } else {
                0x1Au8
            },
    )
}

/// One entry of the open-file table.
pub struct OpenFile {
    pub drive: u8,
    pub name: String,
    pub data: Vec<u8>,
    pub dirty: bool,
}

/// Register results of one BDOS call: the value for A, the value for HL,
/// and whether the call asked for a warm boot.
pub struct BdosReply {
    pub a: Option<u8>,
    pub hl: Option<u16>,
    pub warm_boot: bool,
}

/// What the host should do at the current program counter.
pub enum StepAction {
    /// No intercept: execute one instruction.
    Run,
    /// A syscall was serviced: set A and HL if given, set SP, jump to `pc`.
    Jump { pc: u16, sp: u16, a: Option<u8>, hl: Option<u16> },
    /// Warm boot with a registered shell: reset the CPU, set SP, jump.
    Reload { pc: u16, sp: u16 },
    /// Return control to the host.
    Stop { reason: ExitReason },
}

/// CP/M engine state: everything but the CPU registers.
pub struct CpmEmulator<C: CpmConsole, D: DriveFS> {
    memory: Vec<u8>,
    console: C,
    drives: Vec<Option<D>>,
    current_drive: u8,
    current_user: u8,
    dma: u16,
    dir_entries: Vec<String>,
    dir_index: usize,
    search_pattern_name: Vec<u8>,
    search_pattern_ext: Vec<u8>,
    search_drive: u8,
    open_files: Vec<OpenFile>,
    shell_binary: Option<Vec<u8>>,
    shell_address: u16,
}

impl<C: CpmConsole, D: DriveFS> CpmEmulator<C, D> {
    /// The 65536 bytes of guest memory.
    pub closed spec fn mem(&self) -> Seq<u8> {
        self.memory@
    }

    /// The console.
    pub closed spec fn con(&self) -> C {
        self.console
    }

    /// The 16 drive slots.
    pub closed spec fn drives_view(&self) -> Seq<Option<D>> {
        self.drives@
    }

    pub closed spec fn cur_drive(&self) -> u8 {
        self.current_drive
    }

    pub closed spec fn cur_user(&self) -> u8 {
        self.current_user
    }

    /// The DMA pointer.
    pub closed spec fn dma16(&self) -> u16 {
        self.dma
    }

    /// The directory search snapshot.
    pub closed spec fn entries(&self) -> Seq<String> {
        self.dir_entries@
    }

    /// The directory search cursor.
    pub closed spec fn cursor(&self) -> int {
        self.dir_index as int
    }

    /// The search pattern (8 name bytes, 3 extension bytes).
    pub closed spec fn pattern_name(&self) -> Seq<u8> {
        self.search_pattern_name@
    }

    pub closed spec fn pattern_ext(&self) -> Seq<u8> {
        self.search_pattern_ext@
    }

    /// The drive the search snapshot came from.
    pub closed spec fn searched_drive(&self) -> u8 {
        self.search_drive
    }

    /// The open-file table.
    pub closed spec fn files_view(&self) -> Seq<OpenFile> {
        self.open_files@
    }

    /// The registered shell image.
    pub closed spec fn shell(&self) -> Option<Vec<u8>> {
        self.shell_binary
    }

    pub closed spec fn shell_addr(&self) -> u16 {
        self.shell_address
    }

    /// Well-formed engine state.
    pub open spec fn wf(&self) -> bool {
        &&& self.mem().len() == 65536
        &&& self.drives_view().len() == 16
        &&& (forall|i: int|
            0 <= i < 16 ==> ((#[trigger] self.drives_view()[i]) matches Some(d) ==> d.wf()))
        &&& self.pattern_name().len() == 8
        &&& self.pattern_ext().len() == 3
        &&& self.cursor() <= self.entries().len()
    }

    /// Everything except guest memory and the console is unchanged.
    pub open spec fn same_system(pre: Self, post: Self) -> bool {
        &&& post.drives_view() == pre.drives_view()
        &&& post.cur_drive() == pre.cur_drive()
        &&& post.cur_user() == pre.cur_user()
        &&& post.dma16() == pre.dma16()
        &&& post.entries() == pre.entries()
        &&& post.cursor() == pre.cursor()
        &&& post.pattern_name() == pre.pattern_name()
        &&& post.pattern_ext() == pre.pattern_ext()
        &&& post.searched_drive() == pre.searched_drive()
        &&& post.files_view() == pre.files_view()
        &&& post.shell() == pre.shell()
        &&& post.shell_addr() == pre.shell_addr()
    }

    /// The console is unchanged.
    pub open spec fn same_console(pre: Self, post: Self) -> bool {
        &&& post.con().out() == pre.con().out()
        &&& post.con().lst() == pre.con().lst()
        &&& post.con().inp() == pre.con().inp()
    }

    /// Create an engine with the given console: empty drives, the low
    /// memory vectors installed, DMA at its default.
    pub fn new(console: C) -> (r: Self)
        ensures
            r.wf(),
            r.mem() == init_vectors(Seq::new(65536, |i: int| 0u8)),
            r.con() == console,
            forall|i: int| 0 <= i < 16 ==> (#[trigger] r.drives_view()[i]) is None,
            r.cur_drive() == 0,
            r.cur_user() == 0,
            r.dma16() == DEFAULT_DMA,
            r.files_view() == Seq::<OpenFile>::empty(),
            r.shell() is None,
            r.shell_addr() == TPA,
            r.entries() == Seq::<String>::empty(),
            r.cursor() == 0,
    {
        let memory: Vec<u8> = alloc_memory();
        let mut drives: Vec<Option<D>> = Vec::new();
        let mut i: usize = 0;
        while i < 16
            invariant
                i <= 16,
                drives@.len() == i,
                forall|j: int| 0 <= j < i ==> (#[trigger] drives@[j]) is None,
            decreases 16 - i,
        {
            drives.push(None);
            i += 1;
        }
        let mut pat_name: Vec<u8> = Vec::new();
        let mut i: usize = 0;
        while i < 8
            invariant
                i <= 8,
                pat_name@.len() == i,
            decreases 8 - i,
        {
            pat_name.push(32);
            i += 1;
        }
        let mut pat_ext: Vec<u8> = Vec::new();
        let mut i: usize = 0;
        while i < 3
            invariant
                i <= 3,
                pat_ext@.len() == i,
            decreases 3 - i,
        {
            pat_ext.push(32);
            i += 1;
        }
        let mut emu = CpmEmulator {
            memory,
            console,
            drives,
            current_drive: 0,
            current_user: 0,
            dma: DEFAULT_DMA,
            dir_entries: Vec::new(),
            dir_index: 0,
            search_pattern_name: pat_name,
            search_pattern_ext: pat_ext,
            search_drive: 0,
            open_files: Vec::new(),
            shell_binary: None,
            shell_address: TPA,
        };
        emu.init_memory();
        proof {
            assert(emu.mem() =~= init_vectors(Seq::new(65536, |i: int| 0u8)));
        }
        emu
    }

    /// Reinstall the fixed low-memory vectors.
    fn init_memory(&mut self)
        requires
            old(self).wf(),
        ensures
            final(self).wf(),
            final(self).mem() == init_vectors(old(self).mem()),
            final(self).con() == old(self).con(),
            Self::same_system(*old(self), *final(self)),
    {
        let ghost base = self.memory@;
        self.memory[0x0000] = 0xC3;
        self.memory[0x0001] = 0x00;
        self.memory[0x0002] = 0x00;
        self.memory[0x0003] = 0x00;
        self.memory[0x0004] = 0x00;
        self.memory[0x0005] = 0xC3;
        self.memory[0x0006] = 0x00;
        self.memory[0x0007] = 0xFE;
        self.memory[0xFE00] = 0xC9;
        let ghost mid = self.memory@;
        let mut k: usize = 0;
        while k < 17
            invariant
                k <= 17,
                self.memory@.len() == 65536,
                forall|j: int|
                    0 <= j < 65536 ==> self.memory@[j] == (if is_ret_slot(j) && j < 0xFF00 + 3 * (
                    k as int) {
                        0xC9u8
                    } else {
                        mid[j]
                    }),
                self.console == old(self).console,
                self.drives@ == old(self).drives@,
                self.current_drive == old(self).current_drive,
                self.current_user == old(self).current_user,
                self.dma == old(self).dma,
                self.dir_entries@ == old(self).dir_entries@,
                self.dir_index == old(self).dir_index,
                self.search_pattern_name@ == old(self).search_pattern_name@,
                self.search_pattern_ext@ == old(self).search_pattern_ext@,
                self.search_drive == old(self).search_drive,
                self.open_files@ == old(self).open_files@,
                self.shell_binary == old(self).shell_binary,
                self.shell_address == old(self).shell_address,
            decreases 17 - k,
        {
            self.memory[0xFF00 + k * 3] = 0xC9;
            proof {
                assert(is_ret_slot(0xFF00 + 3 * (k as int)));
                assert((0xFF00 + 3 * (k as int) - 0xFF00) % 3 == 0);
            }
            k += 1;
        }
        proof {
            let m2 = self.memory@;
            assert forall|j: int| 0 <= j < 65536 implies m2[j] == init_vectors(base)[j] by {
                if is_ret_slot(j) {
                    assert(j < 0xFF00 + 3 * 17);
                }
            }
            assert(self.memory@ =~= init_vectors(base));
        }
    }

    /// Mount a filesystem on a drive slot (0 = A, ..., 15 = P). Out-of-range
    /// indices are ignored.
    pub fn mount(&mut self, drive: u8, fs: D)
        requires
            old(self).wf(),
            fs.wf(),
        ensures
            final(self).wf(),
            drive < 16 ==> final(self).drives_view() == old(self).drives_view().update(
                drive as int,
                Some(fs),
            ),
            drive >= 16 ==> final(self).drives_view() == old(self).drives_view(),
            final(self).mem() == old(self).mem(),
            final(self).con() == old(self).con(),
            final(self).files_view() == old(self).files_view(),
            final(self).cur_drive() == old(self).cur_drive(),
            final(self).dma16() == old(self).dma16(),
            final(self).shell() == old(self).shell(),
            final(self).shell_addr() == old(self).shell_addr(),
    {
        if drive < 16 {
            let i = drive as usize;
            self.drives[i] = Some(fs);
        }
    }

    /// Unmount a drive slot.
    pub fn unmount(&mut self, drive: u8)
        requires
            old(self).wf(),
        ensures
            final(self).wf(),
            drive < 16 ==> final(self).drives_view() == old(self).drives_view().update(
                drive as int,
                None::<D>,
            ),
            drive >= 16 ==> final(self).drives_view() == old(self).drives_view(),
            final(self).mem() == old(self).mem(),
            final(self).con() == old(self).con(),
            final(self).files_view() == old(self).files_view(),
    {
        if drive < 16 {
            let i = drive as usize;
            self.drives[i] = None;
        }
    }

    /// The filesystem mounted on a drive slot, if any.
    pub fn drive(&self, drive: u8) -> (r: Option<&D>)
        requires
            self.wf(),
        ensures
            match r {
                Some(d) => drive < 16 && self.drives_view()[drive as int] == Some(*d),
                None => drive >= 16 || self.drives_view()[drive as int] is None,
            },
    {
        if drive < 16 {
            self.drives[drive as usize].as_ref()
        } else {
            None
        }
    }

    /// The console.
    pub fn console(&self) -> (r: &C)
        ensures
            *r == self.con(),
    {
        &self.console
    }

    /// Read one byte of guest memory.
    pub fn mem_read(&self, addr: u16) -> (r: u8)
        requires
            self.wf(),
        ensures
            r == self.mem()[addr as int],
    {
        self.memory[addr as usize]
    }

    /// Write one byte of guest memory.
    pub fn mem_write(&mut self, addr: u16, value: u8)
        requires
            old(self).wf(),
        ensures
            final(self).wf(),
            final(self).mem() == old(self).mem().update(addr as int, value),
            final(self).con() == old(self).con(),
            Self::same_system(*old(self), *final(self)),
    {
        self.memory[addr as usize] = value;
    }

    /// Load bytes into guest memory at an address, clipped at the top.
    pub fn load_at(&mut self, address: u16, data: &[u8])
        requires
            old(self).wf(),
        ensures
            final(self).wf(),
            final(self).mem() == splice(old(self).mem(), address as int, data@),
            final(self).con() == old(self).con(),
            Self::same_system(*old(self), *final(self)),
    {
        let start = address as usize;
        let mut i: usize = 0;
        while i < data.len() && i < 65536 - start
            invariant
                old(self).wf(),
                i <= data@.len(),
                start == address as usize,
                self.memory@.len() == 65536,
                forall|j: int|
                    0 <= j < 65536 ==> self.memory@[j] == (if start <= j < start + i {
                        data@[j - start]
                    } else {
                        old(self).mem()[j]
                    }),
                self.console == old(self).console,
                self.drives@ == old(self).drives@,
                self.current_drive == old(self).current_drive,
                self.current_user == old(self).current_user,
                self.dma == old(self).dma,
                self.dir_entries@ == old(self).dir_entries@,
                self.dir_index == old(self).dir_index,
                self.search_pattern_name@ == old(self).search_pattern_name@,
                self.search_pattern_ext@ == old(self).search_pattern_ext@,
                self.search_drive == old(self).search_drive,
                self.open_files@ == old(self).open_files@,
                self.shell_binary == old(self).shell_binary,
                self.shell_address == old(self).shell_address,
            decreases data@.len() - i,
        {
            self.memory[start + i] = data[i];
            i += 1;
        }
        proof {
            assert(self.memory@ =~= splice(old(self).mem(), address as int, data@));
        }
    }

    /// Load a .COM image at the Transient Program Area (0x0100).
    pub fn load_com(&mut self, data: &[u8])
        requires
            old(self).wf(),
        ensures
            final(self).wf(),
            final(self).mem() == splice(old(self).mem(), TPA as int, data@),
            final(self).con() == old(self).con(),
            Self::same_system(*old(self), *final(self)),
    {
        self.load_at(TPA, data);
    }

    /// Register the shell image for warm-boot reload and load it now.
    pub fn set_shell(&mut self, data: &[u8], address: u16)
        requires
            old(self).wf(),
        ensures
            final(self).wf(),
            final(self).mem() == splice(old(self).mem(), address as int, data@),
            final(self).con() == old(self).con(),
            final(self).shell() matches Some(s) && s@ == data@,
            final(self).shell_addr() == address,
            final(self).drives_view() == old(self).drives_view(),
            final(self).files_view() == old(self).files_view(),
            final(self).cur_drive() == old(self).cur_drive(),
            final(self).dma16() == old(self).dma16(),
    {
        self.shell_binary = Some(slice_to_vec(data));
        self.shell_address = address;
        self.load_at(address, data);
    }

    /// Store the command line at 0x0080: length byte, then the uppercased
    /// text, cut to 127 bytes.
    pub fn set_args(&mut self, args: &str)
        requires
            old(self).wf(),
        ensures
            final(self).wf(),
            final(self).mem() == args_mem(old(self).mem(), args.spec_bytes()),
            final(self).con() == old(self).con(),
            Self::same_system(*old(self), *final(self)),
    {
        let bytes = args.as_bytes_vec();
        let len: usize = if bytes.len() < 127 {
            bytes.len()
        } else {
            127
        };
        self.memory[0x80] = len as u8;
        let mut i: usize = 0;
        while i < len
            invariant
                i <= len,
                len <= 127,
                len == (if bytes@.len() <= 127 {
                    bytes@.len() as int
                } else {
                    127
                }),
                self.memory@.len() == 65536,
                self.memory@[0x80] == len as u8,
                forall|j: int|
                    0 <= j < 65536 && j != 0x80 ==> self.memory@[j] == (if 0x81 <= j < 0x81 + i {
                        upper_byte(bytes@[j - 0x81])
                    } else {
                        old(self).mem()[j]
                    }),
                self.console == old(self).console,
                self.drives@ == old(self).drives@,
                self.current_drive == old(self).current_drive,
                self.current_user == old(self).current_user,
                self.dma == old(self).dma,
                self.dir_entries@ == old(self).dir_entries@,
                self.dir_index == old(self).dir_index,
                self.search_pattern_name@ == old(self).search_pattern_name@,
                self.search_pattern_ext@ == old(self).search_pattern_ext@,
                self.search_drive == old(self).search_drive,
                self.open_files@ == old(self).open_files@,
                self.shell_binary == old(self).shell_binary,
                self.shell_address == old(self).shell_address,
            decreases len - i,
        {
            let raw = bytes[i];
            let b: u8 = if 97 <= raw && raw <= 122 {
                raw - 32
            } else {
                raw
            };
            self.memory[0x81 + i] = b;
            i += 1;
        }
        proof {
            assert(self.memory@ =~= args_mem(old(self).mem(), args.spec_bytes()));
        }
    }

    /// The effective drive slot of an FCB drive byte: 0 means the current
    /// drive, otherwise the byte minus one.
    pub fn effective_drive(&self, fcb_drive: u8) -> (r: u8)
        ensures
            r == Self::spec_effective_drive(*self, fcb_drive),
    {
        if fcb_drive == 0 {
            self.current_drive
        } else {
            fcb_drive - 1
        }
    }

    pub open spec fn spec_effective_drive(s: Self, fcb_drive: u8) -> u8 {
        if fcb_drive == 0 {
            s.cur_drive()
        } else {
            (fcb_drive - 1) as u8
        }
    }
}

/// A fresh 64 KiB memory, all zero.
fn alloc_memory() -> (r: Vec<u8>)
    ensures
        r@ == Seq::new(65536, |i: int| 0u8),
{
    let mut m: Vec<u8> = Vec::new();
    let mut i: usize = 0;
    while i < 65536
        invariant
            i <= 65536,
            m@.len() == i,
            forall|j: int| 0 <= j < i ==> m@[j] == 0u8,
        decreases 65536 - i,
    {
        m.push(0);
        i += 1;
    }
    proof {
        assert(m@ =~= Seq::new(65536, |i: int| 0u8));
    }
    m
}


impl<C: CpmConsole, D: DriveFS> CpmEmulator<C, D> {
    /// The bytes `PrintString` writes: guest memory from `at`, wrapping at
    /// the top, until a `$` byte or until `fuel` bytes were scanned.
    pub open spec fn dollar_scan(m: Seq<u8>, at: u16, fuel: nat) -> Seq<u8>
        decreases fuel,
    {
        if fuel == 0 {
            Seq::empty()
        } else if m[at as int] == 0x24 {
            Seq::empty()
        } else {
            seq![m[at as int]] + Self::dollar_scan(
                m,
                if at == 0xFFFF {
                    0u16
                } else {
                    (at + 1) as u16
                },
                (fuel - 1) as nat,
            )
        }
    }

    /// The line-editing result of `ReadConsoleBuffer` over the pending keys:
    /// yields the stored line, the echoed bytes, and how many keys were
    /// consumed. CR ends the line (echoing CR LF); 0 means the input source
    /// is exhausted and also ends the line; backspace erases; printable keys
    /// are stored while the line is shorter than `max`.
    pub open spec fn rcb_sim(inp: Seq<u8>, stored: Seq<u8>, max: nat) -> (Seq<u8>, Seq<u8>, nat)
        decreases inp.len(),
    {
        if inp.len() == 0 {
            (stored, Seq::empty(), 0nat)
        } else {
            let k = inp.first();
            if k == 13 {
                (stored, seq![13u8, 10u8], 1nat)
            } else if k == 0 {
                (stored, Seq::empty(), 1nat)
            } else if k == 8 || k == 127 {
                if stored.len() > 0 {
                    let rec = Self::rcb_sim(inp.drop_first(), stored.drop_last(), max);
                    (rec.0, seq![8u8, 32u8, 8u8] + rec.1, (rec.2 + 1) as nat)
                } else {
                    let rec = Self::rcb_sim(inp.drop_first(), stored, max);
                    (rec.0, rec.1, (rec.2 + 1) as nat)
                }
            } else if k >= 32 && stored.len() < max {
                let rec = Self::rcb_sim(inp.drop_first(), stored.push(k), max);
                (rec.0, seq![k] + rec.1, (rec.2 + 1) as nat)
            } else {
                let rec = Self::rcb_sim(inp.drop_first(), stored, max);
                (rec.0, rec.1, (rec.2 + 1) as nat)
            }
        }
    }

    /// Copy the 36 bytes at `addr` out of guest memory.
    fn fetch_fcb(&self, addr: u16) -> (r: Fcb)
        requires
            self.wf(),
            addr as int + 36 <= 65536,
        ensures
            r.wf(),
            r@ == self.mem().subrange(addr as int, addr as int + 36),
    {
        let a = addr as usize;
        let mut buf: Vec<u8> = Vec::new();
        let mut i: usize = 0;
        while i < 36
            invariant
                i <= 36,
                self.wf(),
                a == addr as usize,
                a + 36 <= 65536,
                buf@ =~= self.mem().subrange(a as int, a as int + i as int),
            decreases 36 - i,
        {
            buf.push(self.memory[a + i]);
            proof {
                assert(buf@ =~= self.mem().subrange(a as int, a as int + i as int + 1));
            }
            i += 1;
        }
        let r = Fcb::new(buf.as_slice());
        proof {
            assert(buf@.take(36) =~= buf@);
        }
        r
    }

    /// Write an FCB's 36 bytes back into guest memory.
    fn store_fcb(&mut self, addr: u16, fcb: &Fcb)
        requires
            old(self).wf(),
            addr as int + 36 <= 65536,
            fcb.wf(),
        ensures
            final(self).wf(),
            final(self).mem() == splice(old(self).mem(), addr as int, fcb@),
            final(self).con() == old(self).con(),
            Self::same_system(*old(self), *final(self)),
    {
        let a = addr as usize;
        let bytes = fcb.bytes();
        let mut i: usize = 0;
        while i < 36
            invariant
                i <= 36,
                a == addr as usize,
                a + 36 <= 65536,
                self.memory@.len() == 65536,
                fcb.wf(),
                bytes@ == fcb@,
                forall|j: int|
                    0 <= j < 65536 ==> self.memory@[j] == (if a <= j < a + i {
                        fcb@[j - a]
                    } else {
                        old(self).mem()[j]
                    }),
                self.console == old(self).console,
                self.drives@ == old(self).drives@,
                self.current_drive == old(self).current_drive,
                self.current_user == old(self).current_user,
                self.dma == old(self).dma,
                self.dir_entries@ == old(self).dir_entries@,
                self.dir_index == old(self).dir_index,
                self.search_pattern_name@ == old(self).search_pattern_name@,
                self.search_pattern_ext@ == old(self).search_pattern_ext@,
                self.search_drive == old(self).search_drive,
                self.open_files@ == old(self).open_files@,
                self.shell_binary == old(self).shell_binary,
                self.shell_address == old(self).shell_address,
            decreases 36 - i,
        {
            self.memory[a + i] = bytes[i];
            i += 1;
        }
        proof {
            assert(self.memory@ =~= splice(old(self).mem(), addr as int, fcb@));
        }
    }

    /// How one open-file entry leaves the drive table: a dirty entry whose
    /// drive slot is mounted is written back through `write_file` (so a
    /// read-only drive refuses and nothing changes there); anything else
    /// leaves the table as it was.
    pub open spec fn flush_step(pre: Seq<Option<D>>, e: OpenFile, post: Seq<Option<D>>) -> bool {
        if e.dirty && e.drive < 16 && 16 <= pre.len() && pre[e.drive as int] is Some {
            &&& post.len() == pre.len()
            &&& (forall|j: int|
                0 <= j < pre.len() && j != e.drive as int ==> #[trigger] post[j] == pre[j])
            &&& post[e.drive as int] is Some
            &&& Self::drive_written(
                pre[e.drive as int]->0,
                post[e.drive as int]->0,
                e.name@,
                e.data@,
            )
        } else {
            post == pre
        }
    }

    /// The drive table after flushing the open-file entries in order: each
    /// entry applies one `flush_step`, front to back.
    pub open spec fn flush_rel(
        pre: Seq<Option<D>>,
        files: Seq<OpenFile>,
        post: Seq<Option<D>>,
    ) -> bool
        decreases files.len(),
    {
        if files.len() == 0 {
            post == pre
        } else {
            exists|mid: Seq<Option<D>>|
                #[trigger] Self::flush_step(pre, files.first(), mid) && Self::flush_rel(
                    mid,
                    files.drop_first(),
                    post,
                )
        }
    }

    proof fn lemma_flush_snoc(
        pre: Seq<Option<D>>,
        s: Seq<OpenFile>,
        mid: Seq<Option<D>>,
        e: OpenFile,
        post: Seq<Option<D>>,
    )
        requires
            Self::flush_rel(pre, s, mid),
            Self::flush_step(mid, e, post),
        ensures
            Self::flush_rel(pre, s.push(e), post),
        decreases s.len(),
    {
        if s.len() == 0 {
            assert(mid == pre);
            assert(s.push(e).first() == e);
            assert(s.push(e).drop_first() =~= Seq::<OpenFile>::empty());
            assert(Self::flush_step(pre, s.push(e).first(), post));
            assert(Self::flush_rel(post, s.push(e).drop_first(), post));
        } else {
            let m1 = choose|m1: Seq<Option<D>>|
                #[trigger] Self::flush_step(pre, s.first(), m1) && Self::flush_rel(
                    m1,
                    s.drop_first(),
                    mid,
                );
            Self::lemma_flush_snoc(m1, s.drop_first(), mid, e, post);
            assert(s.push(e).first() == s.first());
            assert(s.push(e).drop_first() =~= s.drop_first().push(e));
            assert(Self::flush_step(pre, s.push(e).first(), m1));
        }
    }

    /// Write back every dirty open file and empty the table: the drive
    /// table ends as the in-order fold of one write per entry (errors, for
    /// example on a read-only drive, are ignored, matching CP/M's
    /// best-effort close).
    pub fn flush_open_files(&mut self)
        requires
            old(self).wf(),
        ensures
            final(self).wf(),
            final(self).files_view() == Seq::<OpenFile>::empty(),
            Self::flush_rel(
                old(self).drives_view(),
                old(self).files_view(),
                final(self).drives_view(),
            ),
            final(self).mem() == old(self).mem(),
            Self::same_console(*old(self), *final(self)),
            forall|i: int|
                0 <= i < 16 ==> ((#[trigger] final(self).drives_view()[i]) is Some) == (old(
                    self,
                ).drives_view()[i] is Some),
            final(self).cur_drive() == old(self).cur_drive(),
            final(self).cur_user() == old(self).cur_user(),
            final(self).dma16() == old(self).dma16(),
            final(self).shell() == old(self).shell(),
            final(self).shell_addr() == old(self).shell_addr(),
            final(self).entries() == old(self).entries(),
            final(self).cursor() == old(self).cursor(),
    {
        let ghost all = self.open_files@;
        let n0: usize = self.open_files.len();
        let mut done: usize = 0;
        proof {
            assert(all.len() == n0);
            assert(all.take(0) =~= Seq::<OpenFile>::empty());
        }
        while self.open_files.len() > 0
            invariant
                self.wf(),
                all == old(self).files_view(),
                done + self.open_files@.len() == all.len(),
                all.len() <= usize::MAX,
                self.open_files@ =~= all.skip(done as int),
                Self::flush_rel(old(self).drives_view(), all.take(done as int), self.drives@),
                self.memory@ == old(self).mem(),
                self.console == old(self).console,
                forall|i: int|
                    0 <= i < 16 ==> ((#[trigger] self.drives@[i]) is Some) == (old(
                        self,
                    ).drives_view()[i] is Some),
                self.current_drive == old(self).current_drive,
                self.current_user == old(self).current_user,
                self.dma == old(self).dma,
                self.dir_entries@ == old(self).dir_entries@,
                self.dir_index == old(self).dir_index,
                self.search_pattern_name@ == old(self).search_pattern_name@,
                self.search_pattern_ext@ == old(self).search_pattern_ext@,
                self.search_drive == old(self).search_drive,
                self.shell_binary == old(self).shell_binary,
                self.shell_address == old(self).shell_address,
            decreases self.open_files@.len(),
        {
            let ghost drives_pre = self.drives@;
            let of = self.open_files.remove(0);
            proof {
                assert(of == all[done as int]);
                assert(self.open_files@ =~= all.skip(done as int + 1));
            }
            if of.dirty && of.drive < 16 {
                let idx = of.drive as usize;
                let slot = self.drives.remove(idx);
                let slot2 = match slot {
                    Some(mut fs) => {
                        let _ = fs.write_file(of.name.as_str(), of.data.as_slice());
                        Some(fs)
                    },
                    None => None,
                };
                let ghost ns = slot2;
                self.drives.insert(idx, slot2);
                proof {
                    assert(self.drives@ =~= drives_pre.update(idx as int, ns));
                    if drives_pre[idx as int] is None {
                        assert(self.drives@ =~= drives_pre);
                    }
                    assert(Self::flush_step(drives_pre, of, self.drives@));
                }
            } else {
                proof {
                    assert(Self::flush_step(drives_pre, of, self.drives@));
                }
            }
            proof {
                assert(all.take(done as int + 1).drop_last() =~= all.take(done as int));
                assert(all.take(done as int + 1).last() == of);
                assert(all.take(done as int + 1) =~= all.take(done as int).push(of));
                Self::lemma_flush_snoc(
                    old(self).drives_view(),
                    all.take(done as int),
                    drives_pre,
                    of,
                    self.drives@,
                );
            }
            done += 1;
        }
        proof {
            assert(all.take(done as int) =~= all);
            assert(self.open_files@ =~= Seq::<OpenFile>::empty());
        }
    }

    /// Warm-boot reload: flush open files, reload the shell image at its
    /// address, reinstall the low-memory vectors, reset DMA, clear the
    /// command-line byte. Returns the program counter and stack pointer the
    /// CPU should resume with: the shell address, and two bytes below the
    /// BDOS entry.
    pub fn warm_boot_reload(&mut self) -> (r: (u16, u16))
        requires
            old(self).wf(),
            old(self).shell() is Some,
        ensures
            final(self).wf(),
            final(self).mem() == warm_mem(
                old(self).mem(),
                old(self).shell()->0@,
                old(self).shell_addr() as int,
            ),
            final(self).mem()[0x0000] == 0xC3 && final(self).mem()[0x0001] == 0,
            final(self).mem()[0x0002] == 0,
            final(self).mem()[0x0003] == 0 && final(self).mem()[0x0004] == 0,
            final(self).mem()[0x0005] == 0xC3 && final(self).mem()[0x0006] == 0,
            final(self).mem()[0x0007] == 0xFE,
            final(self).mem()[0x80] == 0,
            final(self).dma16() == DEFAULT_DMA,
            final(self).files_view() == Seq::<OpenFile>::empty(),
            Self::flush_rel(
                old(self).drives_view(),
                old(self).files_view(),
                final(self).drives_view(),
            ),
            r.0 == old(self).shell_addr(),
            r.1 == BDOS_ENTRY - 2,
            final(self).shell() == old(self).shell(),
            final(self).shell_addr() == old(self).shell_addr(),
            Self::same_console(*old(self), *final(self)),
            forall|i: int|
                0 <= i < 16 ==> ((#[trigger] final(self).drives_view()[i]) is Some) == (old(
                    self,
                ).drives_view()[i] is Some),
    {
        self.flush_open_files();
        let shell: Vec<u8> = match &self.shell_binary {
            Some(s) => slice_to_vec(s.as_slice()),
            None => Vec::new(),
        };
        let addr = self.shell_address;
        self.load_at(addr, shell.as_slice());
        self.init_memory();
        self.dma = DEFAULT_DMA;
        self.memory[0x80] = 0;
        proof {
            assert(self.memory@ =~= warm_mem(
                old(self).mem(),
                old(self).shell()->0@,
                old(self).shell_addr() as int,
            ));
        }
        (addr, BDOS_ENTRY - 2)
    }
}


/// The UTF-8 bytes of a string value.
pub open spec fn str_bytes(s: String) -> Seq<u8> {
    vstd::utf8::encode_utf8(s@)
}

/// Byte-lexicographic order on two byte sequences (the order `SearchFirst`
/// sorts directory snapshots with).
pub open spec fn bytes_le(a: Seq<u8>, b: Seq<u8>) -> bool
    decreases a.len(),
{
    if a.len() == 0 {
        true
    } else if b.len() == 0 {
        false
    } else if a.first() < b.first() {
        true
    } else if a.first() > b.first() {
        false
    } else {
        bytes_le(a.drop_first(), b.drop_first())
    }
}

pub proof fn lemma_bytes_le_total(a: Seq<u8>, b: Seq<u8>)
    ensures
        bytes_le(a, b) || bytes_le(b, a),
    decreases a.len(),
{
    if a.len() > 0 && b.len() > 0 && a.first() == b.first() {
        lemma_bytes_le_total(a.drop_first(), b.drop_first());
    }
}

pub proof fn lemma_bytes_le_trans(a: Seq<u8>, b: Seq<u8>, c: Seq<u8>)
    requires
        bytes_le(a, b),
        bytes_le(b, c),
    ensures
        bytes_le(a, c),
    decreases a.len(),
{
    if a.len() > 0 && b.len() > 0 && c.len() > 0 && a.first() == b.first() && b.first()
        == c.first() {
        lemma_bytes_le_trans(a.drop_first(), b.drop_first(), c.drop_first());
    }
}

/// Whether `a` sorts at or before `b`, comparing their bytes.
fn str_le(a: &str, b: &str) -> (r: bool)
    ensures
        r == bytes_le(a.spec_bytes(), b.spec_bytes()),
{
    let ab = a.as_bytes();
    let bb = b.as_bytes();
    let mut i: usize = 0;
    proof {
        assert(ab@.skip(0) =~= ab@);
        assert(bb@.skip(0) =~= bb@);
    }
    while i < ab.len() && i < bb.len()
        invariant_except_break
            i <= ab@.len(),
            i <= bb@.len(),
            ab@ == a.spec_bytes(),
            bb@ == b.spec_bytes(),
            bytes_le(a.spec_bytes(), b.spec_bytes()) == bytes_le(
                ab@.skip(i as int),
                bb@.skip(i as int),
            ),
        ensures
            ab@ == a.spec_bytes(),
            bb@ == b.spec_bytes(),
            i <= ab@.len(),
            i <= bb@.len(),
            bytes_le(a.spec_bytes(), b.spec_bytes()) == bytes_le(
                ab@.skip(i as int),
                bb@.skip(i as int),
            ),
            i < ab@.len() && i < bb@.len() ==> ab@[i as int] != bb@[i as int],
        decreases ab@.len() - i,
    {
        let x = ab[i];
        let y = bb[i];
        if x != y {
            break ;
        }
        proof {
            let sa = ab@.skip(i as int);
            let sb = bb@.skip(i as int);
            assert(sa.first() == ab@[i as int]);
            assert(sb.first() == bb@[i as int]);
            assert(sa.drop_first() =~= ab@.skip(i as int + 1));
            assert(sb.drop_first() =~= bb@.skip(i as int + 1));
        }
        i += 1;
    }
    proof {
        let sa = ab@.skip(i as int);
        let sb = bb@.skip(i as int);
        if i < ab.len() && i < bb.len() {
            assert(sa.first() == ab@[i as int]);
            assert(sb.first() == bb@[i as int]);
        } else if i >= ab.len() {
            assert(sa.len() == 0);
        } else {
            assert(sb.len() == 0);
            assert(sa.len() > 0);
        }
    }
    if i >= ab.len() {
        true
    } else if i >= bb.len() {
        false
    } else {
        ab[i] < bb[i]
    }
}

/// Sorted in byte-lexicographic order.
pub open spec fn sorted_names(v: Seq<String>) -> bool {
    forall|i: int, j: int|
        0 <= i < j < v.len() ==> bytes_le(str_bytes(#[trigger] v[i]), str_bytes(#[trigger] v[j]))
}

/// Sort names in byte-lexicographic order: same set of names, no duplicates,
/// sorted.
pub(crate) fn sort_names(v: Vec<String>) -> (r: Vec<String>)
    requires
        v@.map_values(|s: String| s@).no_duplicates(),
    ensures
        r@.map_values(|s: String| s@).no_duplicates(),
        r@.map_values(|s: String| s@).to_set() == v@.map_values(|s: String| s@).to_set(),
        sorted_names(r@),
        r@.len() == v@.len(),
{
    let ghost orig = v@;
    let mut v = v;
    let n0: usize = v.len();
    let mut r: Vec<String> = Vec::new();
    let mut done: usize = 0;
    proof {
        assert(orig.len() == n0);
        assert(v@ =~= orig.skip(0));
        assert(r@.map_values(|s: String| s@).to_set() =~= orig.take(0).map_values(
            |s: String| s@,
        ).to_set());
    }
    while v.len() > 0
        invariant
            done <= orig.len(),
            orig.len() <= usize::MAX,
            done + v@.len() == orig.len(),
            v@ =~= orig.skip(done as int),
            orig.map_values(|s: String| s@).no_duplicates(),
            r@.len() == done,
            r@.map_values(|s: String| s@).no_duplicates(),
            r@.map_values(|s: String| s@).to_set() == orig.take(done as int).map_values(
                |s: String| s@,
            ).to_set(),
            sorted_names(r@),
        decreases v@.len(),
    {
        let elem = v.remove(0);
        proof {
            assert(elem == orig[done as int]);
            assert(v@ =~= orig.skip(done as int + 1));
        }
        // find the first position that sorts at or after elem
        let mut pos: usize = 0;
        while pos < r.len() && !str_le(elem.as_str(), r[pos].as_str())
            invariant
                pos <= r@.len(),
                forall|k: int|
                    0 <= k < pos ==> !bytes_le(str_bytes(elem), str_bytes(#[trigger] r@[k])),
            decreases r@.len() - pos,
        {
            pos += 1;
        }
        proof {
            assert forall|k: int| 0 <= k < pos implies bytes_le(
                str_bytes(#[trigger] r@[k]),
                str_bytes(elem),
            ) by {
                lemma_bytes_le_total(str_bytes(r@[k]), str_bytes(elem));
            }
        }
        let ghost pre_r = r@;
        r.insert(pos, elem);
        proof {
            let views = r@.map_values(|s: String| s@);
            let pviews = pre_r.map_values(|s: String| s@);
            let ev = elem@;
            assert(r@ =~= pre_r.insert(pos as int, elem));
            // sortedness after insertion
            assert forall|i: int, j: int| 0 <= i < j < r@.len() implies bytes_le(
                str_bytes(#[trigger] r@[i]),
                str_bytes(#[trigger] r@[j]),
            ) by {
                let oi = if i < pos {
                    i
                } else {
                    i - 1
                };
                let oj = if j < pos {
                    j
                } else {
                    j - 1
                };
                if i == pos as int {
                    // elem before r_old[oj]
                    if pos < pre_r.len() {
                        if oj > pos {
                            lemma_bytes_le_trans(
                                str_bytes(elem),
                                str_bytes(pre_r[pos as int]),
                                str_bytes(pre_r[oj]),
                            );
                        }
                    }
                    assert(r@[j] == pre_r[oj]);
                } else if j == pos as int {
                    assert(r@[i] == pre_r[oi]);
                    assert(oi < pos);
                } else {
                    assert(r@[i] == pre_r[oi]);
                    assert(r@[j] == pre_r[oj]);
                }
            }
            // elem's view is new: it is not among the already placed names
            assert(orig.map_values(|s: String| s@)[done as int] == ev);
            let tv = orig.take(done as int).map_values(|s: String| s@);
            let ov = orig.map_values(|s: String| s@);
            assert forall|k: int| 0 <= k < pviews.len() implies pviews[k] != ev by {
                if pviews[k] == ev {
                    assert(pviews.contains(ev));
                    assert(pviews.to_set().contains(ev));
                    assert(tv.to_set().contains(ev));
                    let t = choose|t: int| 0 <= t < tv.len() && (#[trigger] tv[t]) == ev;
                    assert(ov[t] == ev);
                    assert(ov[done as int] == ev);
                }
            }
            // no duplicates and the set after insertion
            assert forall|p: int, q: int| 0 <= p < q < views.len() implies #[trigger] views[p]
                != #[trigger] views[q] by {
                let p2 = if p < pos {
                    p
                } else {
                    p - 1
                };
                let q2 = if q < pos {
                    q
                } else {
                    q - 1
                };
                if p == pos as int {
                    assert(views[q] == pviews[q2]);
                } else if q == pos as int {
                    assert(views[p] == pviews[p2]);
                } else {
                    assert(views[p] == pviews[p2]);
                    assert(views[q] == pviews[q2]);
                }
            }
            assert forall|x: Seq<char>| #[trigger] views.to_set().contains(x) == pviews.to_set(
            ).insert(ev).contains(x) by {
                if views.to_set().contains(x) {
                    let p = choose|p: int| 0 <= p < views.len() && (#[trigger] views[p]) == x;
                    if p != pos as int {
                        let p2 = if p < pos {
                            p
                        } else {
                            p - 1
                        };
                        assert(pviews[p2] == x);
                        assert(pviews.contains(x));
                    }
                }
                if pviews.to_set().contains(x) {
                    let p = choose|p: int| 0 <= p < pviews.len() && (#[trigger] pviews[p]) == x;
                    let p2 = if p < pos {
                        p
                    } else {
                        p + 1
                    };
                    assert(views[p2] == x);
                    assert(views.contains(x));
                }
                if x == ev {
                    assert(views[pos as int] == x);
                    assert(views.contains(x));
                }
            }
            let tviews = orig.take(done as int).map_values(|s: String| s@);
            let tviews1 = orig.take(done as int + 1).map_values(|s: String| s@);
            assert(tviews1 =~= tviews.push(ev));
            assert forall|x: Seq<char>| #[trigger]
                tviews1.to_set().contains(x) == tviews.to_set().insert(ev).contains(x) by {
                if tviews1.to_set().contains(x) {
                    let p = choose|p: int| 0 <= p < tviews1.len() && (#[trigger] tviews1[p]) == x;
                    if p < tviews.len() {
                        assert(tviews[p] == x);
                        assert(tviews.contains(x));
                    }
                }
                if tviews.to_set().contains(x) {
                    let p = choose|p: int| 0 <= p < tviews.len() && (#[trigger] tviews[p]) == x;
                    assert(tviews1[p] == x);
                    assert(tviews1.contains(x));
                }
                if x == ev {
                    assert(tviews1[tviews1.len() - 1] == x);
                    assert(tviews1.contains(x));
                }
            }
            assert(views.to_set() =~= tviews1.to_set());
        }
        done += 1;
    }
    proof {
        assert(orig.take(done as int) =~= orig);
    }
    r
}


/// The 36 bytes `parse_filename` produces for a bare filename: the parsed
/// drive byte, the padded name and extension fields, zeroes elsewhere.
pub open spec fn parsed_fcb(name: Seq<char>) -> Seq<u8> {
    Seq::new(
        36,
        |i: int|
            if i == 0 {
                crate::fcb::spec_parse_drive(name)
            } else if 1 <= i < 9 {
                crate::fcb::padded_field(
                    vstd::utf8::encode_utf8(crate::fcb::spec_parse_name(name)),
                    8,
                )[i - 1]
            } else if 9 <= i < 12 {
                crate::fcb::padded_field(
                    vstd::utf8::encode_utf8(crate::fcb::spec_parse_ext(name)),
                    3,
                )[i - 9]
            } else {
                0u8
            },
    )
}

/// Whether a directory entry name matches the search pattern.
pub open spec fn entry_matches(name: Seq<char>, pn: Seq<u8>, pe: Seq<u8>) -> bool {
    crate::fcb::spec_matches(parsed_fcb(name), pn, pe)
}

/// The 32-byte directory entry `SearchNext` writes to the DMA buffer: the
/// current user code, the padded name and extension, zeroes after.
pub open spec fn dir_entry_bytes(name: Seq<char>, user: u8) -> Seq<u8> {
    Seq::new(
        32,
        |i: int|
            if i == 0 {
                user
            } else if 1 <= i < 12 {
                parsed_fcb(name)[i]
            } else {
                0u8
            },
    )
}

/// The index of the first snapshot entry at or after `start` that matches
/// the pattern.
pub open spec fn first_match(entries: Seq<String>, start: int, pn: Seq<u8>, pe: Seq<u8>) -> Option<
    int,
>
    decreases entries.len() - start,
{
    if start < 0 || start >= entries.len() {
        None
    } else if entry_matches(entries[start]@, pn, pe) {
        Some(start)
    } else {
        first_match(entries, start + 1, pn, pe)
    }
}

impl<C: CpmConsole, D: DriveFS> CpmEmulator<C, D> {
    /// What one `SearchNext` step does: the cursor advances through the
    /// snapshot; on the first match a directory entry goes to the DMA buffer
    /// and A is 0; when the snapshot is exhausted A is 0xFF. The result is a
    /// function of the snapshot, the cursor and the pattern alone: the
    /// drives are untouched, so drive modifications after `SearchFirst`
    /// cannot affect the scan.
    pub open spec fn search_scan_post(pre: Self, post: Self, a: u8) -> bool {
        &&& Self::same_console(pre, post)
        &&& post.drives_view() == pre.drives_view()
        &&& post.files_view() == pre.files_view()
        &&& post.entries() == pre.entries()
        &&& post.pattern_name() == pre.pattern_name()
        &&& post.pattern_ext() == pre.pattern_ext()
        &&& post.searched_drive() == pre.searched_drive()
        &&& post.cur_drive() == pre.cur_drive()
        &&& post.cur_user() == pre.cur_user()
        &&& post.dma16() == pre.dma16()
        &&& post.shell() == pre.shell()
        &&& post.shell_addr() == pre.shell_addr()
        &&& match first_match(pre.entries(), pre.cursor(), pre.pattern_name(), pre.pattern_ext()) {
            Some(k) => a == 0 && post.cursor() == k + 1 && (if pre.dma16() as int + 32 <= 65536 {
                post.mem() == splice(
                    pre.mem(),
                    pre.dma16() as int,
                    dir_entry_bytes(pre.entries()[k]@, pre.cur_user()),
                )
            } else {
                post.mem() == pre.mem()
            }),
            None => a == 0xFF && post.cursor() == pre.entries().len() && post.mem() == pre.mem(),
        }
    }

    /// BDOS 18: advance the search cursor to the next match.
    pub fn bdos_search_next(&mut self) -> (a: u8)
        requires
            old(self).wf(),
        ensures
            final(self).wf(),
            Self::search_scan_post(*old(self), *final(self), a),
    {
        let mut i: usize = self.dir_index;
        while i < self.dir_entries.len()
            invariant
                old(self).wf(),
                old(self).cursor() <= i <= self.dir_entries@.len(),
                *self == *old(self),
                first_match(
                    self.dir_entries@,
                    old(self).cursor(),
                    self.search_pattern_name@,
                    self.search_pattern_ext@,
                ) == first_match(
                    self.dir_entries@,
                    i as int,
                    self.search_pattern_name@,
                    self.search_pattern_ext@,
                ),
            decreases self.dir_entries@.len() - i,
        {
            let zeros: Vec<u8> = alloc_zeros(36);
            let mut test = Fcb::new(zeros.as_slice());
            proof {
                assert(zeros@.take(36) =~= zeros@);
            }
            test.parse_filename(self.dir_entries[i].as_str());
            proof {
                assert(test@ =~= parsed_fcb(self.dir_entries@[i as int]@));
            }
            let m = test.matches_pattern(
                self.search_pattern_name.as_slice(),
                self.search_pattern_ext.as_slice(),
            );
            if m {
                let dma = self.dma as usize;
                if dma + 32 <= 65536 {
                    self.memory[dma] = self.current_user;
                    let tb = test.bytes();
                    let mut k: usize = 1;
                    while k < 12
                        invariant
                            1 <= k <= 12,
                            dma + 32 <= 65536,
                            dma == self.dma as usize,
                            test.wf(),
                            tb@ == test@,
                            self.memory@.len() == 65536,
                            self.memory@[dma as int] == self.current_user,
                            forall|j: int| 1 <= j < k ==> self.memory@[dma + j] == test@[j],
                            forall|j: int|
                                0 <= j < 65536 && !(dma <= j < dma + k) ==> self.memory@[j] == old(
                                    self,
                                ).mem()[j],
                            self.console == old(self).console,
                            self.drives@ == old(self).drives@,
                            self.current_drive == old(self).current_drive,
                            self.current_user == old(self).current_user,
                            self.dma == old(self).dma,
                            self.dir_entries@ == old(self).dir_entries@,
                            self.dir_index == old(self).dir_index,
                            self.search_pattern_name@ == old(self).search_pattern_name@,
                            self.search_pattern_ext@ == old(self).search_pattern_ext@,
                            self.search_drive == old(self).search_drive,
                            self.open_files@ == old(self).open_files@,
                            self.shell_binary == old(self).shell_binary,
                            self.shell_address == old(self).shell_address,
                        decreases 12 - k,
                    {
                        self.memory[dma + k] = tb[k];
                        k += 1;
                    }
                    let mut k: usize = 12;
                    while k < 32
                        invariant
                            12 <= k <= 32,
                            dma + 32 <= 65536,
                            dma == self.dma as usize,
                            test.wf(),
                            self.memory@.len() == 65536,
                            self.memory@[dma as int] == self.current_user,
                            forall|j: int| 1 <= j < 12 ==> self.memory@[dma + j] == test@[j],
                            forall|j: int| dma + 12 <= j < dma + k ==> self.memory@[j] == 0u8,
                            forall|j: int|
                                0 <= j < 65536 && !(dma <= j < dma + k) ==> self.memory@[j] == old(
                                    self,
                                ).mem()[j],
                            self.console == old(self).console,
                            self.drives@ == old(self).drives@,
                            self.current_drive == old(self).current_drive,
                            self.current_user == old(self).current_user,
                            self.dma == old(self).dma,
                            self.dir_entries@ == old(self).dir_entries@,
                            self.dir_index == old(self).dir_index,
                            self.search_pattern_name@ == old(self).search_pattern_name@,
                            self.search_pattern_ext@ == old(self).search_pattern_ext@,
                            self.search_drive == old(self).search_drive,
                            self.open_files@ == old(self).open_files@,
                            self.shell_binary == old(self).shell_binary,
                            self.shell_address == old(self).shell_address,
                        decreases 32 - k,
                    {
                        self.memory[dma + k] = 0;
                        k += 1;
                    }
                    proof {
                        let d = old(self).dma16() as int;
                        let target = splice(
                            old(self).mem(),
                            d,
                            dir_entry_bytes(
                                old(self).entries()[i as int]@,
                                old(self).cur_user(),
                            ),
                        );
                        assert forall|j: int| 0 <= j < 65536 implies self.memory@[j] == target[j]
                            by {
                            if d <= j < d + 32 {
                                if j == d {
                                } else if j < d + 12 {
                                    assert(self.memory@[j] == test@[j - d]);
                                } else {
                                    assert(self.memory@[j] == 0u8);
                                }
                            }
                        }
                        assert(self.memory@ =~= target);
                    }
                }
                self.dir_index = i + 1;
                proof {
                    assert(first_match(
                        old(self).entries(),
                        old(self).cursor(),
                        old(self).pattern_name(),
                        old(self).pattern_ext(),
                    ) == Some(i as int));
                }
                return 0;
            }
            proof {
                assert(first_match(
                    self.dir_entries@,
                    i as int,
                    self.search_pattern_name@,
                    self.search_pattern_ext@,
                ) == first_match(
                    self.dir_entries@,
                    i as int + 1,
                    self.search_pattern_name@,
                    self.search_pattern_ext@,
                ));
            }
            i += 1;
        }
        self.dir_index = i;
        0xFF
    }

    /// What `SearchFirst` does: record the pattern and drive from the FCB at
    /// `de`, snapshot the drive's file list sorted byte-lexicographically,
    /// reset the cursor, and behave as one `SearchNext` step.
    pub open spec fn search_first_post(pre: Self, post: Self, de: u16, a: u8) -> bool {
        &&& Self::same_console(pre, post)
        &&& post.drives_view() == pre.drives_view()
        &&& post.files_view() == pre.files_view()
        &&& post.cur_drive() == pre.cur_drive()
        &&& post.cur_user() == pre.cur_user()
        &&& post.dma16() == pre.dma16()
        &&& post.shell() == pre.shell()
        &&& post.shell_addr() == pre.shell_addr()
        &&& if de as int + 36 > 65536 {
            a == 0xFF && post == pre
        } else {
            let fcb = pre.mem().subrange(de as int, de as int + 36);
            let drv = Self::spec_effective_drive(pre, fcb[0]);
            let pn = fcb.subrange(1, 9);
            let pe = fcb.subrange(9, 12);
            &&& post.pattern_name() == pn
            &&& post.pattern_ext() == pe
            &&& post.searched_drive() == drv
            &&& if drv < 16 && pre.drives_view()[drv as int] is Some {
                let fs = pre.drives_view()[drv as int]->0;
                &&& sorted_names(post.entries())
                &&& post.entries().map_values(|s: String| s@).no_duplicates()
                &&& post.entries().map_values(|s: String| s@).to_set() == fs.files().dom().union(
                    fs.virtual_names(),
                )
                &&& match first_match(post.entries(), 0, pn, pe) {
                    Some(k) => a == 0 && post.cursor() == k + 1 && (if pre.dma16() as int + 32
                        <= 65536 {
                        post.mem() == splice(
                            pre.mem(),
                            pre.dma16() as int,
                            dir_entry_bytes(post.entries()[k]@, pre.cur_user()),
                        )
                    } else {
                        post.mem() == pre.mem()
                    }),
                    None => a == 0xFF && post.cursor() == post.entries().len() && post.mem()
                        == pre.mem(),
                }
            } else {
                a == 0xFF && post.mem() == pre.mem() && post.entries() == pre.entries()
                    && post.cursor() == pre.cursor()
            }
        }
    }

    /// BDOS 17: snapshot the drive's files, record the pattern, scan.
    pub fn bdos_search_first(&mut self, de: u16) -> (a: u8)
        requires
            old(self).wf(),
        ensures
            final(self).wf(),
            Self::search_first_post(*old(self), *final(self), de, a),
    {
        if de as usize + 36 > 65536 {
            return 0xFF;
        }
        let fcb = self.fetch_fcb(de);
        let drv = self.effective_drive(fcb.drive());
        self.search_drive = drv;
        self.search_pattern_name = fcb.raw_name();
        self.search_pattern_ext = fcb.raw_ext();
        if drv >= 16 {
            return 0xFF;
        }
        let names_opt: Option<Vec<String>> = {
            let slot = &self.drives[drv as usize];
            match slot.as_ref() {
                Some(fs) => Some(fs.list_files()),
                None => None,
            }
        };
        match names_opt {
            Some(names) => {
                let sorted = sort_names(names);
                self.dir_entries = sorted;
                self.dir_index = 0;
                let a = self.bdos_search_next();
                a
            },
            None => 0xFF,
        }
    }
}

/// A zeroed byte buffer.
fn alloc_zeros(n: usize) -> (r: Vec<u8>)
    ensures
        r@.len() == n,
        forall|i: int| 0 <= i < n ==> r@[i] == 0u8,
{
    let mut m: Vec<u8> = Vec::new();
    let mut i: usize = 0;
    while i < n
        invariant
            i <= n,
            m@.len() == i,
            forall|j: int| 0 <= j < i ==> m@[j] == 0u8,
        decreases n - i,
    {
        m.push(0);
        i += 1;
    }
    m
}


/// The 36 FCB bytes at `addr`.
pub open spec fn fcb_at(m: Seq<u8>, addr: int) -> Seq<u8> {
    m.subrange(addr, addr + 36)
}

/// FCB bytes after `init`: EX, S1, S2, RC, CR and the handle zeroed.
pub open spec fn spec_init_fcb(m: Seq<u8>) -> Seq<u8> {
    Seq::new(
        m.len(),
        |i: int|
            if i == 0x0C || i == 0x0D || i == 0x0E || i == 0x0F || i == 0x20 || (0x10 <= i < 0x14) {
                0u8
            } else {
                m[i]
            },
    )
}

impl<C: CpmConsole, D: DriveFS> CpmEmulator<C, D> {
    /// The search state is unchanged.
    pub open spec fn same_search(pre: Self, post: Self) -> bool {
        &&& post.entries() == pre.entries()
        &&& post.cursor() == pre.cursor()
        &&& post.pattern_name() == pre.pattern_name()
        &&& post.pattern_ext() == pre.pattern_ext()
        &&& post.searched_drive() == pre.searched_drive()
    }

    /// Current drive and user, DMA and the shell registration are unchanged.
    pub open spec fn same_ctl(pre: Self, post: Self) -> bool {
        &&& post.cur_drive() == pre.cur_drive()
        &&& post.cur_user() == pre.cur_user()
        &&& post.dma16() == pre.dma16()
        &&& post.shell() == pre.shell()
        &&& post.shell_addr() == pre.shell_addr()
    }

    /// Nothing observable changed.
    pub open spec fn unchanged(pre: Self, post: Self) -> bool {
        &&& post.mem() == pre.mem()
        &&& Self::same_console(pre, post)
        &&& post.drives_view() == pre.drives_view()
        &&& post.files_view() == pre.files_view()
        &&& Self::same_search(pre, post)
        &&& Self::same_ctl(pre, post)
    }

    /// How a drive looks after `write_file(name, data)` on it.
    pub open spec fn drive_written(pre_fs: D, post_fs: D, name: Seq<char>, data: Seq<u8>) -> bool {
        &&& post_fs.wf()
        &&& post_fs.read_only() == pre_fs.read_only()
        &&& pre_fs.read_only() ==> post_fs.files() == pre_fs.files() && post_fs.virtual_names()
            == pre_fs.virtual_names()
        &&& !pre_fs.read_only() ==> post_fs.files() == pre_fs.files().insert(
            normalize_83(name),
            data,
        ) && post_fs.virtual_names() == pre_fs.virtual_names().remove(normalize_83(name))
    }

    /// What `OpenFile` (BDOS 15) does: when the FCB names an existing file
    /// on a mounted drive, append it to the open-file table with the next
    /// handle, initialize the FCB and store the handle in it, and answer 0;
    /// otherwise answer 0xFF and change nothing.
    pub open spec fn open_file_post(pre: Self, post: Self, de: u16, a: u8) -> bool {
        &&& Self::same_console(pre, post)
        &&& Self::same_search(pre, post)
        &&& Self::same_ctl(pre, post)
        &&& post.drives_view() == pre.drives_view()
        &&& ({
            let fcb = fcb_at(pre.mem(), de as int);
            let drv = Self::spec_effective_drive(pre, fcb[0]) as int;
            let key = normalize_83(crate::fcb::spec_filename(fcb));
            let can = de as int + 36 <= 65536 && pre.files_view().len() < 0xFFFE && drv < 16
                && pre.drives_view()[drv] is Some && ((pre.drives_view()[drv]->0).files(
            ).contains_key(key) || (pre.drives_view()[drv]->0).virtual_names().contains(key));
            if can {
                let fs = pre.drives_view()[drv]->0;
                &&& a == 0
                &&& post.files_view().len() == pre.files_view().len() + 1
                &&& post.files_view().take(pre.files_view().len() as int) == pre.files_view()
                &&& post.files_view().last().drive as int == drv
                &&& post.files_view().last().name@ == crate::fcb::spec_filename(fcb)
                &&& post.files_view().last().dirty == false
                &&& (!fs.virtual_names().contains(key) ==> post.files_view().last().data@
                    == fs.files()[key])
                &&& post.mem() == splice(
                    pre.mem(),
                    de as int,
                    crate::fcb::spec_set_fd(
                        spec_init_fcb(fcb),
                        (pre.files_view().len() + 1) as u32,
                    ),
                )
            } else {
                a == 0xFF && Self::unchanged(pre, post)
            }
        })
    }

    /// BDOS 15: open a file.
    pub fn bdos_open_file(&mut self, de: u16) -> (a: u8)
        requires
            old(self).wf(),
        ensures
            final(self).wf(),
            Self::open_file_post(*old(self), *final(self), de, a),
    {
        if de as usize + 36 > 65536 {
            return 0xFF;
        }
        if self.open_files.len() >= 0xFFFE {
            return 0xFF;
        }
        let mut fcb = self.fetch_fcb(de);
        let drv = self.effective_drive(fcb.drive());
        if drv >= 16 {
            return 0xFF;
        }
        let filename = fcb.filename();
        let data_opt: Option<Vec<u8>> = {
            let slot = &self.drives[drv as usize];
            match slot.as_ref() {
                Some(fs) => fs.read_file(filename.as_str()),
                None => None,
            }
        };
        match data_opt {
            Some(data) => {
                let handle = self.open_files.len() + 1;
                self.open_files.push(OpenFile { drive: drv, name: filename, data, dirty: false });
                fcb.init();
                fcb.set_fd(handle as u32);
                proof {
                    assert(fcb@ =~= crate::fcb::spec_set_fd(
                        spec_init_fcb(fcb_at(old(self).mem(), de as int)),
                        handle as u32,
                    )) by {
                        assert(spec_init_fcb(fcb_at(old(self).mem(), de as int))
                            =~= crate::fcb::spec_clear_fd(
                            fcb_at(old(self).mem(), de as int).update(0x0C, 0u8).update(
                                0x0D,
                                0u8,
                            ).update(0x0E, 0u8).update(0x0F, 0u8).update(0x20, 0u8),
                        ));
                    }
                }
                self.store_fcb(de, &fcb);
                proof {
                    assert(self.open_files@.take(old(self).files_view().len() as int) =~= old(
                        self,
                    ).files_view());
                }
                0
            },
            None => 0xFF,
        }
    }

    /// What `MakeFile` (BDOS 22) does: append a fresh, empty, dirty entry to
    /// the open-file table (no drive or existence check), initialize the FCB
    /// and store the handle, answer 0.
    pub open spec fn make_file_post(pre: Self, post: Self, de: u16, a: u8) -> bool {
        &&& Self::same_console(pre, post)
        &&& Self::same_search(pre, post)
        &&& Self::same_ctl(pre, post)
        &&& post.drives_view() == pre.drives_view()
        &&& ({
            let fcb = fcb_at(pre.mem(), de as int);
            let drv = Self::spec_effective_drive(pre, fcb[0]) as int;
            let can = de as int + 36 <= 65536 && pre.files_view().len() < 0xFFFE;
            if can {
                &&& a == 0
                &&& post.files_view().len() == pre.files_view().len() + 1
                &&& post.files_view().take(pre.files_view().len() as int) == pre.files_view()
                &&& post.files_view().last().drive as int == drv
                &&& post.files_view().last().name@ == crate::fcb::spec_filename(fcb)
                &&& post.files_view().last().data@ == Seq::<u8>::empty()
                &&& post.files_view().last().dirty == true
                &&& post.mem() == splice(
                    pre.mem(),
                    de as int,
                    crate::fcb::spec_set_fd(
                        spec_init_fcb(fcb),
                        (pre.files_view().len() + 1) as u32,
                    ),
                )
            } else {
                a == 0xFF && Self::unchanged(pre, post)
            }
        })
    }

    /// BDOS 22: create a file.
    pub fn bdos_make_file(&mut self, de: u16) -> (a: u8)
        requires
            old(self).wf(),
        ensures
            final(self).wf(),
            Self::make_file_post(*old(self), *final(self), de, a),
    {
        if de as usize + 36 > 65536 {
            return 0xFF;
        }
        if self.open_files.len() >= 0xFFFE {
            return 0xFF;
        }
        let mut fcb = self.fetch_fcb(de);
        let drv = self.effective_drive(fcb.drive());
        let filename = fcb.filename();
        let handle = self.open_files.len() + 1;
        self.open_files.push(
            OpenFile { drive: drv, name: filename, data: Vec::new(), dirty: true },
        );
        fcb.init();
        fcb.set_fd(handle as u32);
        proof {
            assert(fcb@ =~= crate::fcb::spec_set_fd(
                spec_init_fcb(fcb_at(old(self).mem(), de as int)),
                handle as u32,
            )) by {
                assert(spec_init_fcb(fcb_at(old(self).mem(), de as int))
                    =~= crate::fcb::spec_clear_fd(
                    fcb_at(old(self).mem(), de as int).update(0x0C, 0u8).update(0x0D, 0u8).update(
                        0x0E,
                        0u8,
                    ).update(0x0F, 0u8).update(0x20, 0u8),
                ));
            }
        }
        self.store_fcb(de, &fcb);
        proof {
            assert(self.open_files@.take(old(self).files_view().len() as int) =~= old(
                self,
            ).files_view());
        }
        0
    }

    /// What `CloseFile` (BDOS 16) does: with a valid handle whose index is
    /// in range, write the buffer back to its drive if dirty (errors
    /// ignored), clear the handle in the FCB, answer 0; the table keeps its
    /// slot, so handles are never recycled. With no valid in-range handle,
    /// answer 0xFF and change nothing.
    pub open spec fn close_file_post(pre: Self, post: Self, de: u16, a: u8) -> bool {
        &&& Self::same_console(pre, post)
        &&& Self::same_search(pre, post)
        &&& Self::same_ctl(pre, post)
        &&& post.files_view() == pre.files_view()
        &&& ({
            let fcb = fcb_at(pre.mem(), de as int);
            let h = crate::fcb::spec_fd(fcb);
            if de as int + 36 <= 65536 && h is Some && 0 <= h->0 - 1 < pre.files_view().len() {
                let idx = h->0 - 1;
                &&& a == 0
                &&& post.mem() == splice(pre.mem(), de as int, crate::fcb::spec_clear_fd(fcb))
                &&& if pre.files_view()[idx as int].dirty && pre.files_view()[idx as int].drive
                    < 16 && pre.drives_view()[pre.files_view()[idx as int].drive as int] is Some {
                    let d = pre.files_view()[idx as int].drive as int;
                    &&& (forall|j: int|
                        0 <= j < 16 && j != d ==> #[trigger] post.drives_view()[j]
                            == pre.drives_view()[j])
                    &&& post.drives_view()[d] is Some
                    &&& Self::drive_written(
                        pre.drives_view()[d]->0,
                        post.drives_view()[d]->0,
                        pre.files_view()[idx as int].name@,
                        pre.files_view()[idx as int].data@,
                    )
                } else {
                    post.drives_view() == pre.drives_view()
                }
            } else {
                a == 0xFF && Self::unchanged(pre, post)
            }
        })
    }

    /// BDOS 16: close a file.
    pub fn bdos_close_file(&mut self, de: u16) -> (a: u8)
        requires
            old(self).wf(),
        ensures
            final(self).wf(),
            Self::close_file_post(*old(self), *final(self), de, a),
    {
        if de as usize + 36 > 65536 {
            return 0xFF;
        }
        let mut fcb = self.fetch_fcb(de);
        match fcb.fd() {
            Some(h) => {
                let idx = (h - 1) as usize;
                if idx >= self.open_files.len() {
                    return 0xFF;
                }
                {
                    let dirty = self.open_files[idx].dirty;
                    let fdrive = self.open_files[idx].drive;
                    if dirty && fdrive < 16 {
                        let name = self.open_files[idx].name.clone();
                        let data = slice_to_vec(self.open_files[idx].data.as_slice());
                        let di = fdrive as usize;
                        let slot = self.drives.remove(di);
                        let slot2 = match slot {
                            Some(mut fs) => {
                                let _ = fs.write_file(name.as_str(), data.as_slice());
                                Some(fs)
                            },
                            None => None,
                        };
                        let ghost ns = slot2;
                        self.drives.insert(di, slot2);
                        proof {
                            assert(self.drives@ =~= old(self).drives_view().update(di as int, ns));
                            if old(self).drives_view()[di as int] is None {
                                assert(self.drives@ =~= old(self).drives_view());
                            }
                        }
                    }
                }
                fcb.clear_fd();
                self.store_fcb(de, &fcb);
                0
            },
            None => 0xFF,
        }
    }

    /// What `DeleteFile` (BDOS 19) does: delete the named file on the
    /// effective drive; answer 0 when it existed, 0xFF when the drive is
    /// unmounted, read-only, or the file absent.
    pub open spec fn delete_file_post(pre: Self, post: Self, de: u16, a: u8) -> bool {
        &&& Self::same_console(pre, post)
        &&& Self::same_search(pre, post)
        &&& Self::same_ctl(pre, post)
        &&& post.files_view() == pre.files_view()
        &&& post.mem() == pre.mem()
        &&& ({
            let fcb = fcb_at(pre.mem(), de as int);
            let drv = Self::spec_effective_drive(pre, fcb[0]) as int;
            let key = normalize_83(crate::fcb::spec_filename(fcb));
            if de as int + 36 <= 65536 && drv < 16 && pre.drives_view()[drv] is Some {
                let fs = pre.drives_view()[drv]->0;
                &&& (forall|j: int|
                    0 <= j < 16 && j != drv ==> #[trigger] post.drives_view()[j]
                        == pre.drives_view()[j])
                &&& post.drives_view()[drv] is Some
                &&& ({
                    let fs2 = post.drives_view()[drv]->0;
                    &&& fs2.wf()
                    &&& fs2.read_only() == fs.read_only()
                    &&& if fs.read_only() {
                        a == 0xFF && fs2.files() == fs.files() && fs2.virtual_names()
                            == fs.virtual_names()
                    } else {
                        &&& a == (if fs.files().contains_key(key) || fs.virtual_names().contains(
                            key,
                        ) {
                            0u8
                        } else {
                            0xFFu8
                        })
                        &&& fs2.files() == fs.files().remove(key)
                        &&& fs2.virtual_names() == fs.virtual_names().remove(key)
                    }
                })
            } else {
                a == 0xFF && Self::unchanged(pre, post)
            }
        })
    }

    /// BDOS 19: delete a file.
    pub fn bdos_delete_file(&mut self, de: u16) -> (a: u8)
        requires
            old(self).wf(),
        ensures
            final(self).wf(),
            Self::delete_file_post(*old(self), *final(self), de, a),
    {
        if de as usize + 36 > 65536 {
            return 0xFF;
        }
        let fcb = self.fetch_fcb(de);
        let drv = self.effective_drive(fcb.drive());
        if drv >= 16 {
            return 0xFF;
        }
        let filename = fcb.filename();
        let di = drv as usize;
        let slot = self.drives.remove(di);
        match slot {
            Some(mut fs) => {
                let deleted = fs.delete_file(filename.as_str());
                let newslot = Some(fs);
                let ghost ns = newslot;
                self.drives.insert(di, newslot);
                proof {
                    assert(self.drives@ =~= old(self).drives_view().update(di as int, ns));
                }
                if deleted {
                    0
                } else {
                    0xFF
                }
            },
            None => {
                self.drives.insert(di, None);
                proof {
                    assert(self.drives@ =~= old(self).drives_view());
                }
                0xFF
            },
        }
    }
}


/// The number of 128-byte records that cover `len` bytes.
pub open spec fn spec_record_count(len: nat) -> u32 {
    if len == 0 {
        0u32
    } else {
        (((len - 1) / 128 + 1) as u32)
    }
}

impl<C: CpmConsole, D: DriveFS> CpmEmulator<C, D> {
    /// Copy `n` bytes of guest memory starting at `at`.
    fn read_mem_block(&self, at: usize, n: usize) -> (r: Vec<u8>)
        requires
            self.wf(),
            at + n <= 65536,
        ensures
            r@ == self.mem().subrange(at as int, at as int + n as int),
    {
        let mut r: Vec<u8> = Vec::new();
        let mut k: usize = 0;
        while k < n
            invariant
                k <= n,
                at + n <= 65536,
                self.wf(),
                r@ =~= self.mem().subrange(at as int, at as int + k as int),
            decreases n - k,
        {
            r.push(self.memory[at + k]);
            proof {
                assert(r@ =~= self.mem().subrange(at as int, at as int + k as int + 1));
            }
            k += 1;
        }
        r
    }

    /// Write a block of bytes into guest memory at `at`.
    fn write_mem_block(&mut self, at: usize, data: &Vec<u8>)
        requires
            old(self).wf(),
            at + data@.len() <= 65536,
        ensures
            final(self).wf(),
            final(self).mem() == splice(old(self).mem(), at as int, data@),
            final(self).con() == old(self).con(),
            Self::same_system(*old(self), *final(self)),
    {
        let n = data.len();
        let mut k: usize = 0;
        while k < n
            invariant
                k <= n,
                n == data@.len(),
                at + n <= 65536,
                self.memory@.len() == 65536,
                forall|j: int|
                    0 <= j < 65536 ==> self.memory@[j] == (if at <= j < at + k {
                        data@[j - at]
                    } else {
                        old(self).mem()[j]
                    }),
                self.console == old(self).console,
                self.drives@ == old(self).drives@,
                self.current_drive == old(self).current_drive,
                self.current_user == old(self).current_user,
                self.dma == old(self).dma,
                self.dir_entries@ == old(self).dir_entries@,
                self.dir_index == old(self).dir_index,
                self.search_pattern_name@ == old(self).search_pattern_name@,
                self.search_pattern_ext@ == old(self).search_pattern_ext@,
                self.search_drive == old(self).search_drive,
                self.open_files@ == old(self).open_files@,
                self.shell_binary == old(self).shell_binary,
                self.shell_address == old(self).shell_address,
            decreases n - k,
        {
            self.memory[at + k] = data[k];
            k += 1;
        }
        proof {
            assert(self.memory@ =~= splice(old(self).mem(), at as int, data@));
        }
    }

    /// What a sequential read (BDOS 20) does: with a valid handle, transfer
    /// exactly 128 bytes of the file at the current record into the DMA
    /// buffer, padding past end-of-file with 0x1A, and advance the record;
    /// at or past end-of-file answer 1 and change nothing at all.
    pub open spec fn read_seq_post(pre: Self, post: Self, de: u16, a: u8) -> bool {
        &&& Self::same_console(pre, post)
        &&& Self::same_search(pre, post)
        &&& Self::same_ctl(pre, post)
        &&& post.drives_view() == pre.drives_view()
        &&& post.files_view() == pre.files_view()
        &&& ({
            let fcb = fcb_at(pre.mem(), de as int);
            let h = crate::fcb::spec_fd(fcb);
            if de as int + 36 <= 65536 && h is Some && 0 <= h->0 - 1 < pre.files_view().len() {
                let idx = h->0 - 1;
                let record = crate::fcb::spec_current_record(fcb);
                let offset = record * 128;
                let data = pre.files_view()[idx as int].data@;
                if offset >= data.len() {
                    a == 1 && post.mem() == pre.mem()
                } else if pre.dma16() as int + 128 <= 65536 {
                    &&& a == 0
                    &&& post.mem() == splice(
                        splice(pre.mem(), pre.dma16() as int, record_bytes(data, offset as int)),
                        de as int,
                        crate::fcb::spec_set_current_record(fcb, (record + 1) as u32),
                    )
                } else {
                    a == 0xFF && post.mem() == pre.mem()
                }
            } else {
                a == 0xFF && post.mem() == pre.mem()
            }
        })
    }

    /// BDOS 20: read the next sequential record.
    pub fn bdos_read_sequential(&mut self, de: u16) -> (a: u8)
        requires
            old(self).wf(),
        ensures
            final(self).wf(),
            Self::read_seq_post(*old(self), *final(self), de, a),
    {
        if de as usize + 36 > 65536 {
            return 0xFF;
        }
        let mut fcb = self.fetch_fcb(de);
        let h = match fcb.fd() {
            Some(h) => h,
            None => {
                return 0xFF;
            },
        };
        let idx = (h - 1) as usize;
        if idx >= self.open_files.len() {
            return 0xFF;
        }
        let record = fcb.current_record();
        proof {
            let m = fcb@;
            let aa = m[0x20];
            let bb = m[0x0C];
            let cc = m[0x0E];
            assert((aa as u32) | ((bb as u32) << 7) | ((cc as u32) << 12) < 0x200000)
                by (bit_vector);
        }
        let offset = (record as usize) * 128;
        if offset >= self.open_files[idx].data.len() {
            return 1;
        }
        if self.dma as usize + 128 > 65536 {
            return 0xFF;
        }
        let rec = copy_record(&self.open_files[idx].data, offset);
        let dma = self.dma as usize;
        self.write_mem_block(dma, &rec);
        fcb.set_current_record(record + 1);
        self.store_fcb(de, &fcb);
        0
    }

    /// What a sequential write (BDOS 21) does: with a valid handle, take
    /// exactly 128 bytes from the DMA buffer, write them at the current
    /// record (extending the file with 0x1A padding if needed), mark the
    /// entry dirty, advance the record.
    pub open spec fn write_seq_post(pre: Self, post: Self, de: u16, a: u8) -> bool {
        &&& Self::same_console(pre, post)
        &&& Self::same_search(pre, post)
        &&& Self::same_ctl(pre, post)
        &&& post.drives_view() == pre.drives_view()
        &&& ({
            let fcb = fcb_at(pre.mem(), de as int);
            let h = crate::fcb::spec_fd(fcb);
            if de as int + 36 <= 65536 && h is Some && 0 <= h->0 - 1 < pre.files_view().len()
                && pre.dma16() as int + 128 <= 65536 {
                let idx = h->0 - 1;
                let record = crate::fcb::spec_current_record(fcb);
                let offset = record * 128;
                let rec = pre.mem().subrange(pre.dma16() as int, pre.dma16() as int + 128);
                &&& a == 0
                &&& post.mem() == splice(
                    pre.mem(),
                    de as int,
                    crate::fcb::spec_set_current_record(fcb, (record + 1) as u32),
                )
                &&& post.files_view().len() == pre.files_view().len()
                &&& (forall|j: int|
                    0 <= j < pre.files_view().len() && j != idx ==> #[trigger] post.files_view()[j]
                        == pre.files_view()[j])
                &&& post.files_view()[idx as int].drive == pre.files_view()[idx as int].drive
                &&& post.files_view()[idx as int].name@ == pre.files_view()[idx as int].name@
                &&& post.files_view()[idx as int].dirty == true
                &&& post.files_view()[idx as int].data@ == written_data(
                    pre.files_view()[idx as int].data@,
                    offset as int,
                    rec,
                )
            } else {
                a == 0xFF && post.mem() == pre.mem() && post.files_view() == pre.files_view()
            }
        })
    }

    /// BDOS 21: write the next sequential record.
    pub fn bdos_write_sequential(&mut self, de: u16) -> (a: u8)
        requires
            old(self).wf(),
        ensures
            final(self).wf(),
            Self::write_seq_post(*old(self), *final(self), de, a),
    {
        if de as usize + 36 > 65536 {
            return 0xFF;
        }
        let mut fcb = self.fetch_fcb(de);
        let h = match fcb.fd() {
            Some(h) => h,
            None => {
                return 0xFF;
            },
        };
        let idx = (h - 1) as usize;
        if idx >= self.open_files.len() {
            return 0xFF;
        }
        if self.dma as usize + 128 > 65536 {
            return 0xFF;
        }
        let record = fcb.current_record();
        proof {
            let m = fcb@;
            let aa = m[0x20];
            let bb = m[0x0C];
            let cc = m[0x0E];
            assert((aa as u32) | ((bb as u32) << 7) | ((cc as u32) << 12) < 0x200000)
                by (bit_vector);
        }
        let offset = (record as usize) * 128;
        let dma = self.dma as usize;
        let rec = self.read_mem_block(dma, 128);
        let entry = self.open_files.remove(idx);
        let OpenFile { drive, name, data, dirty: _ } = entry;
        let nd = overwrite_record(data, offset, &rec);
        self.open_files.insert(idx, OpenFile { drive, name, data: nd, dirty: true });
        proof {
            assert forall|j: int|
                0 <= j < old(self).files_view().len() && j != idx as int implies #[trigger] self
                .open_files@[j] == old(self).files_view()[j] by {}
        }
        fcb.set_current_record(record + 1);
        self.store_fcb(de, &fcb);
        0
    }

    /// What a random read (BDOS 33) does: like a sequential read, but at the
    /// 24-bit random record number, without advancing anything.
    pub open spec fn read_rand_post(pre: Self, post: Self, de: u16, a: u8) -> bool {
        &&& Self::same_console(pre, post)
        &&& Self::same_search(pre, post)
        &&& Self::same_ctl(pre, post)
        &&& post.drives_view() == pre.drives_view()
        &&& post.files_view() == pre.files_view()
        &&& ({
            let fcb = fcb_at(pre.mem(), de as int);
            let h = crate::fcb::spec_fd(fcb);
            if de as int + 36 <= 65536 && h is Some && 0 <= h->0 - 1 < pre.files_view().len() {
                let idx = h->0 - 1;
                let record = crate::fcb::spec_random_record(fcb);
                let offset = record * 128;
                let data = pre.files_view()[idx as int].data@;
                if offset >= data.len() {
                    a == 1 && post.mem() == pre.mem()
                } else if pre.dma16() as int + 128 <= 65536 {
                    a == 0 && post.mem() == splice(
                        pre.mem(),
                        pre.dma16() as int,
                        record_bytes(data, offset as int),
                    )
                } else {
                    a == 0xFF && post.mem() == pre.mem()
                }
            } else {
                a == 0xFF && post.mem() == pre.mem()
            }
        })
    }

    /// BDOS 33: read the record named by the random record number.
    pub fn bdos_read_random(&mut self, de: u16) -> (a: u8)
        requires
            old(self).wf(),
        ensures
            final(self).wf(),
            Self::read_rand_post(*old(self), *final(self), de, a),
    {
        if de as usize + 36 > 65536 {
            return 0xFF;
        }
        let fcb = self.fetch_fcb(de);
        let h = match fcb.fd() {
            Some(h) => h,
            None => {
                return 0xFF;
            },
        };
        let idx = (h - 1) as usize;
        if idx >= self.open_files.len() {
            return 0xFF;
        }
        let record = fcb.random_record();
        proof {
            let m = fcb@;
            let aa = m[0x21];
            let bb = m[0x22];
            let cc = m[0x23];
            assert((aa as u32) | ((bb as u32) << 8) | ((cc as u32) << 16) < 0x1000000)
                by (bit_vector);
        }
        let offset = (record as usize) * 128;
        if offset >= self.open_files[idx].data.len() {
            return 1;
        }
        if self.dma as usize + 128 > 65536 {
            return 0xFF;
        }
        let rec = copy_record(&self.open_files[idx].data, offset);
        let dma = self.dma as usize;
        self.write_mem_block(dma, &rec);
        0
    }

    /// What a random write (BDOS 34 / 40) does: like a sequential write at
    /// the random record number, without advancing anything; guest memory is
    /// untouched.
    pub open spec fn write_rand_post(pre: Self, post: Self, de: u16, a: u8) -> bool {
        &&& Self::same_console(pre, post)
        &&& Self::same_search(pre, post)
        &&& Self::same_ctl(pre, post)
        &&& post.drives_view() == pre.drives_view()
        &&& post.mem() == pre.mem()
        &&& ({
            let fcb = fcb_at(pre.mem(), de as int);
            let h = crate::fcb::spec_fd(fcb);
            if de as int + 36 <= 65536 && h is Some && 0 <= h->0 - 1 < pre.files_view().len()
                && pre.dma16() as int + 128 <= 65536 {
                let idx = h->0 - 1;
                let record = crate::fcb::spec_random_record(fcb);
                let offset = record * 128;
                let rec = pre.mem().subrange(pre.dma16() as int, pre.dma16() as int + 128);
                &&& a == 0
                &&& post.files_view().len() == pre.files_view().len()
                &&& (forall|j: int|
                    0 <= j < pre.files_view().len() && j != idx ==> #[trigger] post.files_view()[j]
                        == pre.files_view()[j])
                &&& post.files_view()[idx as int].drive == pre.files_view()[idx as int].drive
                &&& post.files_view()[idx as int].name@ == pre.files_view()[idx as int].name@
                &&& post.files_view()[idx as int].dirty == true
                &&& post.files_view()[idx as int].data@ == written_data(
                    pre.files_view()[idx as int].data@,
                    offset as int,
                    rec,
                )
            } else {
                a == 0xFF && post.files_view() == pre.files_view()
            }
        })
    }

    /// BDOS 34 and 40: write the record named by the random record number.
    pub fn bdos_write_random(&mut self, de: u16) -> (a: u8)
        requires
            old(self).wf(),
        ensures
            final(self).wf(),
            Self::write_rand_post(*old(self), *final(self), de, a),
    {
        if de as usize + 36 > 65536 {
            return 0xFF;
        }
        let fcb = self.fetch_fcb(de);
        let h = match fcb.fd() {
            Some(h) => h,
            None => {
                return 0xFF;
            },
        };
        let idx = (h - 1) as usize;
        if idx >= self.open_files.len() {
            return 0xFF;
        }
        if self.dma as usize + 128 > 65536 {
            return 0xFF;
        }
        let record = fcb.random_record();
        proof {
            let m = fcb@;
            let aa = m[0x21];
            let bb = m[0x22];
            let cc = m[0x23];
            assert((aa as u32) | ((bb as u32) << 8) | ((cc as u32) << 16) < 0x1000000)
                by (bit_vector);
        }
        let offset = (record as usize) * 128;
        let dma = self.dma as usize;
        let rec = self.read_mem_block(dma, 128);
        let entry = self.open_files.remove(idx);
        let OpenFile { drive, name, data, dirty: _ } = entry;
        let nd = overwrite_record(data, offset, &rec);
        self.open_files.insert(idx, OpenFile { drive, name, data: nd, dirty: true });
        proof {
            assert forall|j: int|
                0 <= j < old(self).files_view().len() && j != idx as int implies #[trigger] self
                .open_files@[j] == old(self).files_view()[j] by {}
        }
        0
    }

    /// What `ComputeFileSize` (BDOS 35) does: read the file on the effective
    /// drive; if present, store the number of 128-byte records it covers in
    /// the random record field and answer 0, else answer 0xFF.
    pub open spec fn compute_size_post(pre: Self, post: Self, de: u16, a: u8) -> bool {
        &&& Self::same_console(pre, post)
        &&& Self::same_search(pre, post)
        &&& Self::same_ctl(pre, post)
        &&& post.drives_view() == pre.drives_view()
        &&& post.files_view() == pre.files_view()
        &&& ({
            let fcb = fcb_at(pre.mem(), de as int);
            let drv = Self::spec_effective_drive(pre, fcb[0]) as int;
            let key = normalize_83(crate::fcb::spec_filename(fcb));
            let can = de as int + 36 <= 65536 && drv < 16 && pre.drives_view()[drv] is Some
                && ((pre.drives_view()[drv]->0).files().contains_key(key) || (pre.drives_view(
            )[drv]->0).virtual_names().contains(key));
            if can {
                let fs = pre.drives_view()[drv]->0;
                &&& a == 0
                &&& exists|data: Seq<u8>|
                    (!fs.virtual_names().contains(key) ==> data == fs.files()[key])
                        && #[trigger] post.mem() == splice(
                        pre.mem(),
                        de as int,
                        crate::fcb::spec_set_random_record(fcb, spec_record_count(data.len())),
                    )
            } else {
                a == 0xFF && post.mem() == pre.mem()
            }
        })
    }

    /// BDOS 35: compute a file's size in records.
    pub fn bdos_compute_file_size(&mut self, de: u16) -> (a: u8)
        requires
            old(self).wf(),
        ensures
            final(self).wf(),
            Self::compute_size_post(*old(self), *final(self), de, a),
    {
        if de as usize + 36 > 65536 {
            return 0xFF;
        }
        let mut fcb = self.fetch_fcb(de);
        let drv = self.effective_drive(fcb.drive());
        if drv >= 16 {
            return 0xFF;
        }
        let filename = fcb.filename();
        let data_opt: Option<Vec<u8>> = {
            let slot = &self.drives[drv as usize];
            match slot.as_ref() {
                Some(fs) => fs.read_file(filename.as_str()),
                None => None,
            }
        };
        match data_opt {
            Some(data) => {
                let len = data.len();
                let records: usize = if len == 0 {
                    0
                } else {
                    (len - 1) / 128 + 1
                };
                fcb.set_random_record(#[verifier::truncate] (records as u32));
                self.store_fcb(de, &fcb);
                proof {
                    assert(records as u32 == spec_record_count(data@.len()));
                }
                0
            },
            None => 0xFF,
        }
    }

    /// What `SetRandomRecord` (BDOS 36) does: copy the sequential position
    /// into the random record field; no register result.
    pub open spec fn set_rand_post(pre: Self, post: Self, de: u16) -> bool {
        &&& Self::same_console(pre, post)
        &&& Self::same_search(pre, post)
        &&& Self::same_ctl(pre, post)
        &&& post.drives_view() == pre.drives_view()
        &&& post.files_view() == pre.files_view()
        &&& ({
            let fcb = fcb_at(pre.mem(), de as int);
            if de as int + 36 <= 65536 {
                post.mem() == splice(
                    pre.mem(),
                    de as int,
                    crate::fcb::spec_set_random_record(
                        fcb,
                        crate::fcb::spec_current_record(fcb),
                    ),
                )
            } else {
                post.mem() == pre.mem()
            }
        })
    }

    /// BDOS 36: set the random record from the sequential position.
    pub fn bdos_set_random_record(&mut self, de: u16)
        requires
            old(self).wf(),
        ensures
            final(self).wf(),
            Self::set_rand_post(*old(self), *final(self), de),
    {
        if de as usize + 36 > 65536 {
            return ;
        }
        let mut fcb = self.fetch_fcb(de);
        let record = fcb.current_record();
        fcb.set_random_record(record);
        self.store_fcb(de, &fcb);
    }

    /// What `RenameFile` (BDOS 23) does: the FCB holds the old name, a
    /// second name starts 16 bytes in; copy the bytes under the new name,
    /// then delete the old; on a read-only drive or a missing file, answer
    /// 0xFF and leave the drive as it was.
    pub open spec fn rename_post(pre: Self, post: Self, de: u16, a: u8) -> bool {
        &&& Self::same_console(pre, post)
        &&& Self::same_search(pre, post)
        &&& Self::same_ctl(pre, post)
        &&& post.files_view() == pre.files_view()
        &&& post.mem() == pre.mem()
        &&& ({
            let fcb = fcb_at(pre.mem(), de as int);
            let fcb2 = fcb_at(pre.mem(), de as int + 16);
            let drv = Self::spec_effective_drive(pre, fcb[0]) as int;
            let old_key = normalize_83(crate::fcb::spec_filename(fcb));
            let new_key = normalize_83(crate::fcb::spec_filename(fcb2));
            let can = de as int + 52 <= 65536 && drv < 16 && pre.drives_view()[drv] is Some
                && ((pre.drives_view()[drv]->0).files().contains_key(old_key) || (pre.drives_view(
            )[drv]->0).virtual_names().contains(old_key));
            if can {
                let fs = pre.drives_view()[drv]->0;
                &&& (forall|j: int|
                    0 <= j < 16 && j != drv ==> #[trigger] post.drives_view()[j]
                        == pre.drives_view()[j])
                &&& post.drives_view()[drv] is Some
                &&& ({
                    let fs2 = post.drives_view()[drv]->0;
                    &&& fs2.wf()
                    &&& fs2.read_only() == fs.read_only()
                    &&& if fs.read_only() {
                        a == 0xFF && fs2.files() == fs.files() && fs2.virtual_names()
                            == fs.virtual_names()
                    } else {
                        &&& a == 0
                        &&& exists|data: Seq<u8>|
                            (!fs.virtual_names().contains(old_key) ==> data == fs.files()[old_key])
                                && #[trigger] fs2.files() == fs.files().insert(
                                new_key,
                                data,
                            ).remove(old_key) && fs2.virtual_names() == fs.virtual_names().remove(
                                new_key,
                            ).remove(old_key)
                    }
                })
            } else {
                a == 0xFF && post.drives_view() == pre.drives_view()
            }
        })
    }

    /// BDOS 23: rename a file.
    pub fn bdos_rename_file(&mut self, de: u16) -> (a: u8)
        requires
            old(self).wf(),
        ensures
            final(self).wf(),
            Self::rename_post(*old(self), *final(self), de, a),
    {
        if de as usize + 52 > 65536 {
            return 0xFF;
        }
        let fcb = self.fetch_fcb(de);
        let fcb2 = self.fetch_fcb(de + 16);
        let drv = self.effective_drive(fcb.drive());
        if drv >= 16 {
            return 0xFF;
        }
        let old_name = fcb.filename();
        let new_name = fcb2.filename();
        let di = drv as usize;
        let slot = self.drives.remove(di);
        match slot {
            Some(fs) => {
                let ghost fs_pre = fs;
                let mut fs = fs;
                let data_opt = fs.read_file(old_name.as_str());
                match data_opt {
                    Some(data) => {
                        let wrote = fs.write_file(new_name.as_str(), data.as_slice());
                        match wrote {
                            Ok(_) => {
                                let _ = fs.delete_file(old_name.as_str());
                                let newslot = Some(fs);
                                let ghost ns = newslot;
                                self.drives.insert(di, newslot);
                                proof {
                                    assert(self.drives@ =~= old(self).drives_view().update(
                                        di as int,
                                        ns,
                                    ));
                                    let fcbv = fcb_at(old(self).mem(), de as int);
                                    let fcb2v = fcb_at(old(self).mem(), de as int + 16);
                                    let old_key = normalize_83(crate::fcb::spec_filename(fcbv));
                                    let new_key = normalize_83(crate::fcb::spec_filename(fcb2v));
                                    assert((!fs_pre.virtual_names().contains(old_key) ==> data@
                                        == fs_pre.files()[old_key]) && (ns->0).files()
                                        == fs_pre.files().insert(new_key, data@).remove(old_key)
                                        && (ns->0).virtual_names()
                                        == fs_pre.virtual_names().remove(new_key).remove(old_key));
                                }
                                0
                            },
                            Err(_) => {
                                let newslot = Some(fs);
                                let ghost ns = newslot;
                                self.drives.insert(di, newslot);
                                proof {
                                    assert(self.drives@ =~= old(self).drives_view().update(
                                        di as int,
                                        ns,
                                    ));
                                }
                                0xFF
                            },
                        }
                    },
                    None => {
                        let newslot = Some(fs);
                        let ghost ns = newslot;
                        self.drives.insert(di, newslot);
                        proof {
                            assert(self.drives@ =~= old(self).drives_view().update(di as int, ns));
                            assert(self.drives@ =~= old(self).drives_view());
                        }
                        0xFF
                    },
                }
            },
            None => {
                self.drives.insert(di, None);
                proof {
                    assert(self.drives@ =~= old(self).drives_view());
                }
                0xFF
            },
        }
    }
}

/// The 128 bytes of `data` at `offset`, padded with 0x1A past the end.
fn copy_record(data: &Vec<u8>, offset: usize) -> (r: Vec<u8>)
    requires
        offset <= 0x7FFFFF80,
    ensures
        r@ == record_bytes(data@, offset as int),
{
    let mut r: Vec<u8> = Vec::new();
    let mut k: usize = 0;
    while k < 128
        invariant
            k <= 128,
            offset <= 0x7FFFFF80,
            r@.len() == k,
            forall|j: int|
                0 <= j < k ==> r@[j] == (if offset + j < data@.len() {
                    data@[offset + j]
                } else {
                    0x1Au8
                }),
        decreases 128 - k,
    {
        let b: u8 = if offset + k < data.len() {
            data[offset + k]
        } else {
            0x1A
        };
        r.push(b);
        k += 1;
    }
    proof {
        assert(r@ =~= record_bytes(data@, offset as int));
    }
    r
}

/// `data` with the 128-byte record `rec` written at `offset`, extending the
/// file with 0x1A padding first when it is shorter.
fn overwrite_record(data: Vec<u8>, offset: usize, rec: &Vec<u8>) -> (r: Vec<u8>)
    requires
        offset <= 0x7FFFFF80,
        rec@.len() == 128,
    ensures
        r@ == written_data(data@, offset as int, rec@),
{
    let ghost orig = data@;
    let mut nd = data;
    while nd.len() < offset + 128
        invariant
            offset <= 0x7FFFFF80,
            nd@.len() >= orig.len(),
            forall|j: int| 0 <= j < orig.len() ==> nd@[j] == orig[j],
            forall|j: int| orig.len() <= j < nd@.len() ==> nd@[j] == 0x1Au8,
            nd@.len() <= offset + 128 || nd@.len() == orig.len(),
        decreases offset + 128 - nd@.len(),
    {
        nd.push(0x1A);
    }
    let mut k: usize = 0;
    while k < 128
        invariant
            k <= 128,
            offset <= 0x7FFFFF80,
            offset + 128 <= nd@.len(),
            rec@.len() == 128,
            nd@.len() == (if orig.len() >= offset + 128 {
                orig.len() as int
            } else {
                offset + 128
            }),
            forall|j: int|
                0 <= j < nd@.len() && !(offset <= j < offset + 128) ==> nd@[j] == (if j
                    < orig.len() {
                    orig[j]
                } else {
                    0x1Au8
                }),
            forall|j: int|
                offset <= j < offset + k ==> nd@[j] == rec@[j - offset],
            forall|j: int|
                offset + k <= j < offset + 128 ==> nd@[j] == (if j < orig.len() {
                    orig[j]
                } else {
                    0x1Au8
                }),
        decreases 128 - k,
    {
        nd[offset + k] = rec[k];
        k += 1;
    }
    proof {
        assert(nd@ =~= written_data(orig, offset as int, rec@));
    }
    nd
}


/// The next address after `a`, wrapping at the top of memory.
pub open spec fn wrap1(a: u16) -> u16 {
    if a == 0xFFFF {
        0u16
    } else {
        (a + 1) as u16
    }
}

/// The 16-bit little-endian word at `sp` in guest memory (the return address
/// popped after a serviced syscall).
pub open spec fn ret_at(m: Seq<u8>, sp: u16) -> u16 {
    (m[sp as int] as u16) | ((m[wrap1(sp) as int] as u16) << 8)
}

impl<C: CpmConsole, D: DriveFS> CpmEmulator<C, D> {
    /// How a blocking key read changes the console: the first pending key is
    /// consumed, or 0 comes back from an exhausted source.
    pub open spec fn key_wait(pre: C, post: C, a: Option<u8>) -> bool {
        &&& post.out() == pre.out()
        &&& post.lst() == pre.lst()
        &&& if pre.inp().len() > 0 {
            a == Some(pre.inp()[0]) && post.inp() == pre.inp().drop_first()
        } else {
            a == Some(0u8) && post.inp() == pre.inp()
        }
    }

    /// The login vector: bit `i` set exactly when drive `i` is mounted
    /// (of the first `n` slots).
    pub open spec fn spec_login_vector(drives: Seq<Option<D>>, n: int) -> u16
        decreases n,
    {
        if n <= 0 {
            0u16
        } else {
            let rest = Self::spec_login_vector(drives, n - 1);
            if drives[n - 1] is Some {
                rest | (1u16 << ((n - 1) as u16))
            } else {
                rest
            }
        }
    }

    /// BDOS 9: write guest memory from DE until a `$`, wrapping at the top
    /// of memory, scanning at most the whole 64 KiB once.
    pub fn bdos_print_string(&mut self, de: u16)
        requires
            old(self).wf(),
        ensures
            final(self).wf(),
            final(self).mem() == old(self).mem(),
            Self::same_system(*old(self), *final(self)),
            final(self).con().out() == old(self).con().out() + Self::dollar_scan(
                old(self).mem(),
                de,
                65536,
            ),
            final(self).con().inp() == old(self).con().inp(),
            final(self).con().lst() == old(self).con().lst(),
    {
        let mut addr: u16 = de;
        let mut fuel: usize = 65536;
        let ghost mut written: Seq<u8> = Seq::empty();
        proof {
            assert(old(self).con().out() + written =~= old(self).con().out());
        }
        while fuel > 0
            invariant_except_break
                old(self).wf(),
                self.memory@ == old(self).mem(),
                self.drives@ == old(self).drives@,
                self.current_drive == old(self).current_drive,
                self.current_user == old(self).current_user,
                self.dma == old(self).dma,
                self.dir_entries@ == old(self).dir_entries@,
                self.dir_index == old(self).dir_index,
                self.search_pattern_name@ == old(self).search_pattern_name@,
                self.search_pattern_ext@ == old(self).search_pattern_ext@,
                self.search_drive == old(self).search_drive,
                self.open_files@ == old(self).open_files@,
                self.shell_binary == old(self).shell_binary,
                self.shell_address == old(self).shell_address,
                self.console.out() == old(self).con().out() + written,
                self.console.inp() == old(self).con().inp(),
                self.console.lst() == old(self).con().lst(),
                Self::dollar_scan(old(self).mem(), de, 65536) == written + Self::dollar_scan(
                    old(self).mem(),
                    addr,
                    fuel as nat,
                ),
            ensures
                self.memory@ == old(self).mem(),
                self.drives@ == old(self).drives@,
                self.current_drive == old(self).current_drive,
                self.current_user == old(self).current_user,
                self.dma == old(self).dma,
                self.dir_entries@ == old(self).dir_entries@,
                self.dir_index == old(self).dir_index,
                self.search_pattern_name@ == old(self).search_pattern_name@,
                self.search_pattern_ext@ == old(self).search_pattern_ext@,
                self.search_drive == old(self).search_drive,
                self.open_files@ == old(self).open_files@,
                self.shell_binary == old(self).shell_binary,
                self.shell_address == old(self).shell_address,
                self.console.inp() == old(self).con().inp(),
                self.console.lst() == old(self).con().lst(),
                self.console.out() == old(self).con().out() + Self::dollar_scan(
                    old(self).mem(),
                    de,
                    65536,
                ),
            decreases fuel,
        {
            let b = self.memory[addr as usize];
            if b == 0x24 {
                proof {
                    assert(Self::dollar_scan(old(self).mem(), addr, fuel as nat)
                        =~= Seq::<u8>::empty());
                    assert(written + Seq::<u8>::empty() =~= written);
                }
                break ;
            }
            self.console.write(b);
            proof {
                let next = wrap1(addr);
                assert(Self::dollar_scan(old(self).mem(), addr, fuel as nat) == seq![b]
                    + Self::dollar_scan(old(self).mem(), next, (fuel - 1) as nat));
                assert((old(self).con().out() + written).push(b) =~= old(self).con().out() + (
                written.push(b)));
                assert(written + (seq![b] + Self::dollar_scan(
                    old(self).mem(),
                    next,
                    (fuel - 1) as nat,
                )) =~= written.push(b) + Self::dollar_scan(
                    old(self).mem(),
                    next,
                    (fuel - 1) as nat,
                ));
                written = written.push(b);
            }
            addr = if addr == 0xFFFF {
                0
            } else {
                addr + 1
            };
            fuel -= 1;
        }
        proof {
            if fuel == 0 {
                assert(Self::dollar_scan(old(self).mem(), addr, 0) =~= Seq::<u8>::empty());
                assert(written + Seq::<u8>::empty() =~= written);
            }
        }
    }

    /// What `ReadConsoleBuffer` (BDOS 10) does: line input at DE, where
    /// byte 0 holds the capacity; the typed line lands at DE+2 and its
    /// length at DE+1, echoing as it goes, per [`CpmEmulator::rcb_sim`].
    pub open spec fn rcb_post(pre: Self, post: Self, de: u16) -> bool {
        &&& Self::same_search(pre, post)
        &&& Self::same_ctl(pre, post)
        &&& post.drives_view() == pre.drives_view()
        &&& post.files_view() == pre.files_view()
        &&& post.con().lst() == pre.con().lst()
        &&& ({
            let max = pre.mem()[de as int] as nat;
            if de as int + 2 + max <= 65536 {
                let sim = Self::rcb_sim(pre.con().inp(), Seq::empty(), max);
                &&& post.con().inp() == pre.con().inp().skip(sim.2 as int)
                &&& post.con().out() == pre.con().out() + sim.1
                &&& post.mem().len() == 65536
                &&& post.mem()[de as int + 1] == sim.0.len() as u8
                &&& post.mem().subrange(de as int + 2, de as int + 2 + sim.0.len() as int)
                    == sim.0
                &&& (forall|j: int|
                    0 <= j < 65536 && j != de as int + 1 && !(de as int + 2 <= j < de as int + 2
                        + max) ==> post.mem()[j] == pre.mem()[j])
            } else {
                post.mem() == pre.mem() && Self::same_console(pre, post)
            }
        })
    }

    proof fn lemma_rcb_bounds(inp: Seq<u8>, stored: Seq<u8>, max: nat)
        requires
            stored.len() <= max,
        ensures
            Self::rcb_sim(inp, stored, max).0.len() <= max,
            Self::rcb_sim(inp, stored, max).2 <= inp.len(),
        decreases inp.len(),
    {
        if inp.len() > 0 {
            let k = inp.first();
            if k == 13 || k == 0 {
            } else if (k == 8 || k == 127) && stored.len() > 0 {
                Self::lemma_rcb_bounds(inp.drop_first(), stored.drop_last(), max);
            } else if k >= 32 && stored.len() < max && k != 8 && k != 127 {
                Self::lemma_rcb_bounds(inp.drop_first(), stored.push(k), max);
            } else {
                Self::lemma_rcb_bounds(inp.drop_first(), stored, max);
            }
        }
    }

    /// BDOS 10: buffered console line input with echo and editing.
    pub fn bdos_read_console_buffer(&mut self, de: u16)
        requires
            old(self).wf(),
        ensures
            final(self).wf(),
            Self::rcb_post(*old(self), *final(self), de),
    {
        let max = self.memory[de as usize] as usize;
        if de as usize + 2 + max > 65536 {
            return ;
        }
        let ghost inp0 = old(self).con().inp();
        let ghost full = Self::rcb_sim(inp0, Seq::<u8>::empty(), max as nat);
        proof {
            Self::lemma_rcb_bounds(inp0, Seq::<u8>::empty(), max as nat);
        }
        let mut pos: usize = 0;
        let ghost mut written: Seq<u8> = Seq::empty();
        proof {
            assert(self.memory@.subrange(de as int + 2, de as int + 2) =~= Seq::<u8>::empty());
            assert(old(self).con().out() + written =~= old(self).con().out());
        }
        loop
            invariant
                old(self).wf(),
                de as int + 2 + max <= 65536,
                max == old(self).mem()[de as int],
                inp0 == old(self).con().inp(),
                full == Self::rcb_sim(inp0, Seq::<u8>::empty(), max as nat),
                full.0.len() <= max,
                full.2 <= inp0.len(),
                pos <= max,
                self.memory@.len() == 65536,
                self.drives@ == old(self).drives@,
                self.current_drive == old(self).current_drive,
                self.current_user == old(self).current_user,
                self.dma == old(self).dma,
                self.dir_entries@ == old(self).dir_entries@,
                self.dir_index == old(self).dir_index,
                self.search_pattern_name@ == old(self).search_pattern_name@,
                self.search_pattern_ext@ == old(self).search_pattern_ext@,
                self.search_drive == old(self).search_drive,
                self.open_files@ == old(self).open_files@,
                self.shell_binary == old(self).shell_binary,
                self.shell_address == old(self).shell_address,
                self.console.lst() == old(self).con().lst(),
                self.console.out() == old(self).con().out() + written,
                forall|j: int|
                    0 <= j < 65536 && !(de as int + 2 <= j < de as int + 2 + max) ==> self.memory@[j]
                        == old(self).mem()[j],
                ({
                    let stored = self.memory@.subrange(de as int + 2, de as int + 2 + pos as int);
                    let sim = Self::rcb_sim(self.console.inp(), stored, max as nat);
                    &&& full.0 == sim.0
                    &&& full.1 == written + sim.1
                    &&& full.2 == (inp0.len() - self.console.inp().len()) + sim.2
                    &&& inp0.skip(inp0.len() - self.console.inp().len()) == self.console.inp()
                    &&& self.console.inp().len() <= inp0.len()
                }),
            decreases self.console.inp().len(),
        {
            let ghost inp_pre = self.console.inp();
            let ghost stored_pre = self.memory@.subrange(de as int + 2, de as int + 2 + pos as int);
            let ch = self.console.wait_for_key();
            proof {
                if inp_pre.len() == 0 {
                    assert(ch == 0);
                } else {
                    assert(ch == inp_pre.first());
                    assert(inp0.skip(inp0.len() - self.console.inp().len())
                        =~= self.console.inp());
                }
            }
            if ch == 13 {
                self.console.write(13);
                self.console.write(10);
                self.memory[de as usize + 1] = pos as u8;
                proof {
                    assert(Self::rcb_sim(inp_pre, stored_pre, max as nat) == (
                    stored_pre,
                    seq![13u8, 10u8],
                    1nat,
                ));
                    assert(full.0 == stored_pre);
                    assert(full.1 =~= written + seq![13u8, 10u8]);
                    assert(self.console.out() =~= old(self).con().out() + full.1);
                    assert(self.memory@.subrange(de as int + 2, de as int + 2 + pos as int)
                        =~= stored_pre);
                    assert(self.console.inp() =~= inp0.skip(full.2 as int));
                }
                return ;
            }
            if ch == 0 {
                self.memory[de as usize + 1] = pos as u8;
                proof {
                    if inp_pre.len() > 0 {
                        assert(Self::rcb_sim(inp_pre, stored_pre, max as nat) == (
                        stored_pre,
                        Seq::<u8>::empty(),
                        1nat,
                    ));
                    }
                    assert(full.0 == stored_pre);
                    assert(full.1 =~= written);
                    assert(self.console.out() =~= old(self).con().out() + full.1);
                    assert(self.memory@.subrange(de as int + 2, de as int + 2 + pos as int)
                        =~= stored_pre);
                    assert(self.console.inp() =~= inp0.skip(full.2 as int));
                }
                return ;
            }
            proof {
                assert(inp_pre.len() > 0);
            }
            if ch == 8 || ch == 127 {
                if pos > 0 {
                    pos -= 1;
                    self.console.write(8);
                    self.console.write(32);
                    self.console.write(8);
                    proof {
                        let stored_now = self.memory@.subrange(
                            de as int + 2,
                            de as int + 2 + pos as int,
                        );
                        assert(stored_now =~= stored_pre.drop_last());
                        assert(written + (seq![8u8, 32u8, 8u8] + Self::rcb_sim(
                            self.console.inp(),
                            stored_now,
                            max as nat,
                        ).1) =~= (written + seq![8u8, 32u8, 8u8]) + Self::rcb_sim(
                            self.console.inp(),
                            stored_now,
                            max as nat,
                        ).1);
                        assert(self.console.out() =~= old(self).con().out() + (written + seq![
                            8u8,
                            32u8,
                            8u8,
                        ]));
                        written = written + seq![8u8, 32u8, 8u8];
                    }
                } else {
                    proof {
                        assert(self.memory@.subrange(de as int + 2, de as int + 2 + pos as int)
                            =~= stored_pre);
                    }
                }
            } else if ch >= 32 && pos < max {
                self.memory[de as usize + 2 + pos] = ch;
                pos += 1;
                self.console.write(ch);
                proof {
                    let stored_now = self.memory@.subrange(
                        de as int + 2,
                        de as int + 2 + pos as int,
                    );
                    assert(stored_now =~= stored_pre.push(ch));
                    assert(written + (seq![ch] + Self::rcb_sim(
                        self.console.inp(),
                        stored_now,
                        max as nat,
                    ).1) =~= (written + seq![ch]) + Self::rcb_sim(
                        self.console.inp(),
                        stored_now,
                        max as nat,
                    ).1);
                    assert(self.console.out() =~= old(self).con().out() + (written + seq![ch]));
                    written = written + seq![ch];
                }
            } else {
                proof {
                    assert(self.memory@.subrange(de as int + 2, de as int + 2 + pos as int)
                        =~= stored_pre);
                }
            }
        }
    }

    /// What one BDOS call does, by function number, per spec of each
    /// handler; `r.warm_boot` exactly for System Reset.
    pub open spec fn dispatch_post(
        pre: Self,
        post: Self,
        func: BdosFunction,
        e: u8,
        de: u16,
        r: BdosReply,
    ) -> bool {
        &&& r.warm_boot == (func is SystemReset)
        &&& match func {
            BdosFunction::SystemReset => r.a is None && r.hl is None && Self::unchanged(pre, post),
            BdosFunction::ConsoleInput => r.hl is None && Self::key_wait(pre.con(), post.con(), r.a)
                && post.mem() == pre.mem() && Self::same_system(pre, post),
            BdosFunction::ConsoleOutput => r.a is None && r.hl is None && post.con().out()
                == pre.con().out().push(e) && post.con().inp() == pre.con().inp() && post.con().lst()
                == pre.con().lst() && post.mem() == pre.mem() && Self::same_system(pre, post),
            BdosFunction::ListOutput => r.a is None && r.hl is None && post.con().lst()
                == pre.con().lst().push(e) && post.con().inp() == pre.con().inp() && post.con().out()
                == pre.con().out() && post.mem() == pre.mem() && Self::same_system(pre, post),
            BdosFunction::DirectConsoleIO => r.hl is None && post.mem() == pre.mem()
                && Self::same_system(pre, post) && (if e == 0xFF {
                post.con().out() == pre.con().out() && post.con().lst() == pre.con().lst() && (
                if pre.con().inp().len() > 0 {
                    r.a == Some(pre.con().inp()[0]) && post.con().inp()
                        == pre.con().inp().drop_first()
                } else {
                    r.a == Some(0u8) && post.con().inp() == pre.con().inp()
                })
            } else if e == 0xFE {
                Self::same_console(pre, post) && r.a == Some(
                    if pre.con().inp().len() > 0 {
                        0xFFu8
                    } else {
                        0u8
                    },
                )
            } else if e == 0xFD {
                Self::key_wait(pre.con(), post.con(), r.a)
            } else {
                r.a is None && post.con().out() == pre.con().out().push(e) && post.con().inp()
                    == pre.con().inp() && post.con().lst() == pre.con().lst()
            }),
            BdosFunction::PrintString => r.a is None && r.hl is None && post.mem() == pre.mem()
                && Self::same_system(pre, post) && post.con().out() == pre.con().out()
                + Self::dollar_scan(pre.mem(), de, 65536) && post.con().inp() == pre.con().inp()
                && post.con().lst() == pre.con().lst(),
            BdosFunction::ReadConsoleBuffer => r.a is None && r.hl is None && Self::rcb_post(
                pre,
                post,
                de,
            ),
            BdosFunction::ConsoleStatus => r.hl is None && Self::unchanged(pre, post) && r.a
                == Some(
                if pre.con().inp().len() > 0 {
                    0xFFu8
                } else {
                    0u8
                },
            ),
            BdosFunction::ReturnVersion => r.a is None && r.hl == Some(0x0022u16)
                && Self::unchanged(pre, post),
            BdosFunction::ResetDiskSystem => r.a == Some(0u8) && r.hl is None && post.cur_drive()
                == 0 && post.dma16() == DEFAULT_DMA && post.mem() == pre.mem()
                && Self::same_console(pre, post) && post.drives_view() == pre.drives_view()
                && post.files_view() == pre.files_view() && Self::same_search(pre, post)
                && post.cur_user() == pre.cur_user() && post.shell() == pre.shell()
                && post.shell_addr() == pre.shell_addr(),
            BdosFunction::SelectDisk => r.hl is None && post.cur_drive() == e && post.mem()
                == pre.mem().update(4, e) && Self::same_console(pre, post) && post.drives_view()
                == pre.drives_view() && post.files_view() == pre.files_view() && Self::same_search(
                pre,
                post,
            ) && post.cur_user() == pre.cur_user() && post.dma16() == pre.dma16() && post.shell()
                == pre.shell() && post.shell_addr() == pre.shell_addr() && r.a == Some(
                if e < 16 && pre.drives_view()[e as int] is Some {
                    0u8
                } else {
                    0xFFu8
                },
            ),
            BdosFunction::ReturnCurrentDisk => r.hl is None && r.a == Some(pre.cur_drive())
                && Self::unchanged(pre, post),
            BdosFunction::SetDmaAddress => r.a is None && r.hl is None && post.dma16() == de
                && post.mem() == pre.mem() && Self::same_console(pre, post) && post.drives_view()
                == pre.drives_view() && post.files_view() == pre.files_view() && Self::same_search(
                pre,
                post,
            ) && post.cur_drive() == pre.cur_drive() && post.cur_user() == pre.cur_user()
                && post.shell() == pre.shell() && post.shell_addr() == pre.shell_addr(),
            BdosFunction::ReturnLoginVector => r.a is None && r.hl == Some(
                Self::spec_login_vector(pre.drives_view(), 16),
            ) && Self::unchanged(pre, post),
            BdosFunction::UserCode => r.hl is None && (if e == 0xFF {
                r.a == Some(pre.cur_user()) && Self::unchanged(pre, post)
            } else {
                r.a is None && post.cur_user() == e & 0x0F && post.mem() == pre.mem()
                    && Self::same_console(pre, post) && post.drives_view() == pre.drives_view()
                    && post.files_view() == pre.files_view() && Self::same_search(pre, post)
                    && post.cur_drive() == pre.cur_drive() && post.dma16() == pre.dma16()
                    && post.shell() == pre.shell() && post.shell_addr() == pre.shell_addr()
            }),
            BdosFunction::OpenFile => r.hl is None && r.a is Some && Self::open_file_post(
                pre,
                post,
                de,
                r.a->0,
            ),
            BdosFunction::CloseFile => r.hl is None && r.a is Some && Self::close_file_post(
                pre,
                post,
                de,
                r.a->0,
            ),
            BdosFunction::SearchFirst => r.hl is None && r.a is Some && Self::search_first_post(
                pre,
                post,
                de,
                r.a->0,
            ),
            BdosFunction::SearchNext => r.hl is None && r.a is Some && Self::search_scan_post(
                pre,
                post,
                r.a->0,
            ),
            BdosFunction::DeleteFile => r.hl is None && r.a is Some && Self::delete_file_post(
                pre,
                post,
                de,
                r.a->0,
            ),
            BdosFunction::ReadSequential => r.hl is None && r.a is Some && Self::read_seq_post(
                pre,
                post,
                de,
                r.a->0,
            ),
            BdosFunction::WriteSequential => r.hl is None && r.a is Some && Self::write_seq_post(
                pre,
                post,
                de,
                r.a->0,
            ),
            BdosFunction::MakeFile => r.hl is None && r.a is Some && Self::make_file_post(
                pre,
                post,
                de,
                r.a->0,
            ),
            BdosFunction::RenameFile => r.hl is None && r.a is Some && Self::rename_post(
                pre,
                post,
                de,
                r.a->0,
            ),
            BdosFunction::ReadRandom => r.hl is None && r.a is Some && Self::read_rand_post(
                pre,
                post,
                de,
                r.a->0,
            ),
            BdosFunction::WriteRandom => r.hl is None && r.a is Some && Self::write_rand_post(
                pre,
                post,
                de,
                r.a->0,
            ),
            BdosFunction::WriteRandomZeroFill => r.hl is None && r.a is Some
                && Self::write_rand_post(pre, post, de, r.a->0),
            BdosFunction::ComputeFileSize => r.hl is None && r.a is Some
                && Self::compute_size_post(pre, post, de, r.a->0),
            BdosFunction::SetRandomRecord => r.a is None && r.hl is None && Self::set_rand_post(
                pre,
                post,
                de,
            ),
            _ => r.a == Some(0u8) && r.hl is None && Self::unchanged(pre, post),
        }
    }

    /// Dispatch one BDOS call: translate the function number and register
    /// arguments into filesystem and console operations, yielding the
    /// register results.
    pub fn dispatch_bdos(&mut self, func: BdosFunction, e: u8, de: u16) -> (r: BdosReply)
        requires
            old(self).wf(),
        ensures
            final(self).wf(),
            Self::dispatch_post(*old(self), *final(self), func, e, de, r),
    {
        match func {
            BdosFunction::SystemReset => BdosReply { a: None, hl: None, warm_boot: true },
            BdosFunction::ConsoleInput => {
                let ch = self.console.wait_for_key();
                BdosReply { a: Some(ch), hl: None, warm_boot: false }
            },
            BdosFunction::ConsoleOutput => {
                self.console.write(e);
                BdosReply { a: None, hl: None, warm_boot: false }
            },
            BdosFunction::ListOutput => {
                self.console.print(e);
                BdosReply { a: None, hl: None, warm_boot: false }
            },
            BdosFunction::DirectConsoleIO => {
                if e == 0xFF {
                    let k = self.console.get_key();
                    let a = match k {
                        Some(ch) => ch,
                        None => 0,
                    };
                    BdosReply { a: Some(a), hl: None, warm_boot: false }
                } else if e == 0xFE {
                    let a: u8 = if self.console.has_key() {
                        0xFF
                    } else {
                        0
                    };
                    BdosReply { a: Some(a), hl: None, warm_boot: false }
                } else if e == 0xFD {
                    let ch = self.console.wait_for_key();
                    BdosReply { a: Some(ch), hl: None, warm_boot: false }
                } else {
                    self.console.write(e);
                    BdosReply { a: None, hl: None, warm_boot: false }
                }
            },
            BdosFunction::PrintString => {
                self.bdos_print_string(de);
                BdosReply { a: None, hl: None, warm_boot: false }
            },
            BdosFunction::ReadConsoleBuffer => {
                self.bdos_read_console_buffer(de);
                BdosReply { a: None, hl: None, warm_boot: false }
            },
            BdosFunction::ConsoleStatus => {
                let a: u8 = if self.console.has_key() {
                    0xFF
                } else {
                    0
                };
                BdosReply { a: Some(a), hl: None, warm_boot: false }
            },
            BdosFunction::ReturnVersion => BdosReply {
                a: None,
                hl: Some(0x0022),
                warm_boot: false,
            },
            BdosFunction::ResetDiskSystem => {
                self.current_drive = 0;
                self.dma = DEFAULT_DMA;
                BdosReply { a: Some(0), hl: None, warm_boot: false }
            },
            BdosFunction::SelectDisk => {
                self.current_drive = e;
                self.memory[0x0004] = e;
                let a: u8 = if e < 16 {
                    let mounted = {
                        let slot = &self.drives[e as usize];
                        match slot.as_ref() {
                            Some(_) => true,
                            None => false,
                        }
                    };
                    if mounted {
                        0
                    } else {
                        0xFF
                    }
                } else {
                    0xFF
                };
                BdosReply { a: Some(a), hl: None, warm_boot: false }
            },
            BdosFunction::ReturnCurrentDisk => BdosReply {
                a: Some(self.current_drive),
                hl: None,
                warm_boot: false,
            },
            BdosFunction::SetDmaAddress => {
                self.dma = de;
                BdosReply { a: None, hl: None, warm_boot: false }
            },
            BdosFunction::ReturnLoginVector => {
                let mut v: u16 = 0;
                let mut i: usize = 0;
                while i < 16
                    invariant
                        i <= 16,
                        self.wf(),
                        *self == *old(self),
                        v == Self::spec_login_vector(self.drives@, i as int),
                    decreases 16 - i,
                {
                    let mounted = {
                        let slot = &self.drives[i];
                        match slot.as_ref() {
                            Some(_) => true,
                            None => false,
                        }
                    };
                    if mounted {
                        v = v | (1u16 << (i as u16));
                    }
                    i += 1;
                }
                BdosReply { a: None, hl: Some(v), warm_boot: false }
            },
            BdosFunction::UserCode => {
                if e == 0xFF {
                    BdosReply { a: Some(self.current_user), hl: None, warm_boot: false }
                } else {
                    self.current_user = e & 0x0F;
                    BdosReply { a: None, hl: None, warm_boot: false }
                }
            },
            BdosFunction::OpenFile => {
                let a = self.bdos_open_file(de);
                BdosReply { a: Some(a), hl: None, warm_boot: false }
            },
            BdosFunction::CloseFile => {
                let a = self.bdos_close_file(de);
                BdosReply { a: Some(a), hl: None, warm_boot: false }
            },
            BdosFunction::SearchFirst => {
                let a = self.bdos_search_first(de);
                BdosReply { a: Some(a), hl: None, warm_boot: false }
            },
            BdosFunction::SearchNext => {
                let a = self.bdos_search_next();
                BdosReply { a: Some(a), hl: None, warm_boot: false }
            },
            BdosFunction::DeleteFile => {
                let a = self.bdos_delete_file(de);
                BdosReply { a: Some(a), hl: None, warm_boot: false }
            },
            BdosFunction::ReadSequential => {
                let a = self.bdos_read_sequential(de);
                BdosReply { a: Some(a), hl: None, warm_boot: false }
            },
            BdosFunction::WriteSequential => {
                let a = self.bdos_write_sequential(de);
                BdosReply { a: Some(a), hl: None, warm_boot: false }
            },
            BdosFunction::MakeFile => {
                let a = self.bdos_make_file(de);
                BdosReply { a: Some(a), hl: None, warm_boot: false }
            },
            BdosFunction::RenameFile => {
                let a = self.bdos_rename_file(de);
                BdosReply { a: Some(a), hl: None, warm_boot: false }
            },
            BdosFunction::ReadRandom => {
                let a = self.bdos_read_random(de);
                BdosReply { a: Some(a), hl: None, warm_boot: false }
            },
            BdosFunction::WriteRandom => {
                let a = self.bdos_write_random(de);
                BdosReply { a: Some(a), hl: None, warm_boot: false }
            },
            BdosFunction::WriteRandomZeroFill => {
                let a = self.bdos_write_random(de);
                BdosReply { a: Some(a), hl: None, warm_boot: false }
            },
            BdosFunction::ComputeFileSize => {
                let a = self.bdos_compute_file_size(de);
                BdosReply { a: Some(a), hl: None, warm_boot: false }
            },
            BdosFunction::SetRandomRecord => {
                self.bdos_set_random_record(de);
                BdosReply { a: None, hl: None, warm_boot: false }
            },
            _ => BdosReply { a: Some(0), hl: None, warm_boot: false },
        }
    }

    /// Decode register C and dispatch; an unknown function code is a no-op
    /// with no register result.
    pub fn handle_bdos(&mut self, c: u8, e: u8, de: u16) -> (r: BdosReply)
        requires
            old(self).wf(),
        ensures
            final(self).wf(),
            match spec_bdos_function(c) {
                Some(f) => Self::dispatch_post(*old(self), *final(self), f, e, de, r),
                None => r.a is None && r.hl is None && !r.warm_boot && Self::unchanged(
                    *old(self),
                    *final(self),
                ),
            },
    {
        match BdosFunction::from_code(c) {
            Some(f) => self.dispatch_bdos(f, e, de),
            None => BdosReply { a: None, hl: None, warm_boot: false },
        }
    }

    /// Handle a call into the BIOS jump table: slots 0 and 1 are cold and
    /// warm boot; 2 is console status, 3 blocking input, 4 output of
    /// register C; other slots do nothing.
    pub fn handle_cbios(&mut self, pc: u16, c: u8) -> (r: BdosReply)
        requires
            old(self).wf(),
            pc >= CBIOS_BASE,
        ensures
            final(self).wf(),
            ({
                let f = (pc - CBIOS_BASE) / 3;
                let pre = *old(self);
                let post = *final(self);
                &&& r.hl is None
                &&& r.warm_boot == (f == 0 || f == 1)
                &&& if f == 0 || f == 1 {
                    r.a is None && Self::unchanged(pre, post)
                } else if f == 2 {
                    r.a == Some(
                        if pre.con().inp().len() > 0 {
                            0xFFu8
                        } else {
                            0u8
                        },
                    ) && Self::unchanged(pre, post)
                } else if f == 3 {
                    Self::key_wait(pre.con(), post.con(), r.a) && post.mem() == pre.mem()
                        && Self::same_system(pre, post)
                } else if f == 4 {
                    r.a is None && post.con().out() == pre.con().out().push(c) && post.con().inp()
                        == pre.con().inp() && post.con().lst() == pre.con().lst() && post.mem()
                        == pre.mem() && Self::same_system(pre, post)
                } else {
                    r.a is None && Self::unchanged(pre, post)
                }
            }),
    {
        let f = (pc - CBIOS_BASE) / 3;
        if f == 0 || f == 1 {
            BdosReply { a: None, hl: None, warm_boot: true }
        } else if f == 2 {
            let a: u8 = if self.console.has_key() {
                0xFF
            } else {
                0
            };
            BdosReply { a: Some(a), hl: None, warm_boot: false }
        } else if f == 3 {
            let ch = self.console.wait_for_key();
            BdosReply { a: Some(ch), hl: None, warm_boot: false }
        } else if f == 4 {
            self.console.write(c);
            BdosReply { a: None, hl: None, warm_boot: false }
        } else {
            BdosReply { a: None, hl: None, warm_boot: false }
        }
    }

    /// Pop the 16-bit return address at `sp` (little-endian, wrapping).
    fn pop_ret(&self, sp: u16) -> (r: u16)
        requires
            self.wf(),
        ensures
            r == ret_at(self.mem(), sp),
    {
        let lo = self.memory[sp as usize];
        let hi_at: u16 = if sp == 0xFFFF {
            0
        } else {
            sp + 1
        };
        let hi = self.memory[hi_at as usize];
        (lo as u16) | ((hi as u16) << 8)
    }

    /// The engine's per-instruction intercept. The host calls this with the
    /// program counter and the registers the dispatch reads (C, E, DE, SP),
    /// then applies the returned action to the CPU: run one instruction,
    /// jump to the popped return address with the result registers, reload
    /// after a warm boot, or stop.
    pub fn on_pc(&mut self, pc: u16, c: u8, e: u8, de: u16, sp: u16) -> (r: StepAction)
        requires
            old(self).wf(),
        ensures
            final(self).wf(),
            pc != BDOS_ENTRY && pc < CBIOS_BASE && pc != 0 ==> (r is Run) && Self::unchanged(
                *old(self),
                *final(self),
            ),
            ({
                let warm_path = pc == 0 || (pc == BDOS_ENTRY && spec_bdos_function(c) == Some(
                    BdosFunction::SystemReset,
                )) || (pc >= CBIOS_BASE && pc != BDOS_ENTRY && ((pc - CBIOS_BASE) / 3 == 0 || (pc
                    - CBIOS_BASE) / 3 == 1));
                warm_path ==> (if old(self).shell() is Some {
                    r == (StepAction::Reload { pc: old(self).shell_addr(), sp: (BDOS_ENTRY
                        - 2) as u16 }) && final(self).mem() == warm_mem(
                        old(self).mem(),
                        old(self).shell()->0@,
                        old(self).shell_addr() as int,
                    ) && final(self).dma16() == DEFAULT_DMA && final(self).files_view()
                        == Seq::<OpenFile>::empty() && Self::flush_rel(
                        old(self).drives_view(),
                        old(self).files_view(),
                        final(self).drives_view(),
                    ) && final(self).shell() == old(self).shell() && final(self).shell_addr()
                        == old(self).shell_addr()
                } else {
                    r == (StepAction::Stop { reason: ExitReason::WarmBoot }) && Self::unchanged(
                        *old(self),
                        *final(self),
                    )
                })
            }),
            pc == BDOS_ENTRY && spec_bdos_function(c) is Some && spec_bdos_function(c) != Some(
                BdosFunction::SystemReset,
            ) ==> (r matches StepAction::Jump { pc: rp, sp: rs, a, hl } && rp == ret_at(
                final(self).mem(),
                sp,
            ) && rs == wrap1(wrap1(sp)) && Self::dispatch_post(
                *old(self),
                *final(self),
                spec_bdos_function(c)->0,
                e,
                de,
                (BdosReply { a, hl, warm_boot: false }),
            )),
            pc == BDOS_ENTRY && spec_bdos_function(c) is None ==> (r matches StepAction::Jump {
                pc: rp,
                sp: rs,
                a,
                hl,
            } && rp == ret_at(final(self).mem(), sp) && rs == wrap1(wrap1(sp)) && a is None && hl
                is None && Self::unchanged(*old(self), *final(self))),
            pc >= CBIOS_BASE && pc != BDOS_ENTRY && (pc - CBIOS_BASE) / 3 > 1 ==> (r
                matches StepAction::Jump { pc: rp, sp: rs, a, hl } && rp == ret_at(
                final(self).mem(),
                sp,
            ) && rs == wrap1(wrap1(sp)) && hl is None && ({
                let f = (pc - CBIOS_BASE) / 3;
                let pre = *old(self);
                let post = *final(self);
                if f == 2 {
                    a == Some(
                        if pre.con().inp().len() > 0 {
                            0xFFu8
                        } else {
                            0u8
                        },
                    ) && Self::unchanged(pre, post)
                } else if f == 3 {
                    Self::key_wait(pre.con(), post.con(), a) && post.mem() == pre.mem()
                        && Self::same_system(pre, post)
                } else if f == 4 {
                    a is None && post.con().out() == pre.con().out().push(c) && post.con().inp()
                        == pre.con().inp() && post.con().lst() == pre.con().lst() && post.mem()
                        == pre.mem() && Self::same_system(pre, post)
                } else {
                    a is None && Self::unchanged(pre, post)
                }
            })),
    {
        if pc == BDOS_ENTRY {
            let reply = self.handle_bdos(c, e, de);
            if reply.warm_boot {
                if self.shell_binary.is_some() {
                    let (rp, rs) = self.warm_boot_reload();
                    return StepAction::Reload { pc: rp, sp: rs };
                }
                return StepAction::Stop { reason: ExitReason::WarmBoot };
            }
            let rp = self.pop_ret(sp);
            let sp1: u16 = if sp == 0xFFFF {
                0
            } else {
                sp + 1
            };
            let rs: u16 = if sp1 == 0xFFFF {
                0
            } else {
                sp1 + 1
            };
            return StepAction::Jump { pc: rp, sp: rs, a: reply.a, hl: reply.hl };
        }
        if pc >= CBIOS_BASE {
            let reply = self.handle_cbios(pc, c);
            if reply.warm_boot {
                if self.shell_binary.is_some() {
                    let (rp, rs) = self.warm_boot_reload();
                    return StepAction::Reload { pc: rp, sp: rs };
                }
                return StepAction::Stop { reason: ExitReason::WarmBoot };
            }
            let rp = self.pop_ret(sp);
            let sp1: u16 = if sp == 0xFFFF {
                0
            } else {
                sp + 1
            };
            let rs: u16 = if sp1 == 0xFFFF {
                0
            } else {
                sp1 + 1
            };
            return StepAction::Jump { pc: rp, sp: rs, a: reply.a, hl: reply.hl };
        }
        if pc == 0 {
            if self.shell_binary.is_some() {
                let (rp, rs) = self.warm_boot_reload();
                return StepAction::Reload { pc: rp, sp: rs };
            }
            return StepAction::Stop { reason: ExitReason::WarmBoot };
        }
        StepAction::Run
    }
}


impl<C: CpmConsole, D: DriveFS> CpmEmulator<C, D> {
    /// Handle uniqueness law: no BDOS call shrinks the open-file table
    /// (Close writes back but keeps its slot), and Open and Make hand out
    /// the table length plus one as the handle — so successive opens within
    /// a session return strictly increasing handles and none is recycled.
    pub proof fn lemma_handles_monotonic(
        pre: Self,
        post: Self,
        func: BdosFunction,
        e: u8,
        de: u16,
        r: BdosReply,
    )
        requires
            Self::dispatch_post(pre, post, func, e, de, r),
        ensures
            post.files_view().len() >= pre.files_view().len(),
    {
    }
}

/// Record-size constancy law: the buffer a read transfers into the DMA
/// window is always exactly 128 bytes, and a write always covers exactly the
/// 128-byte window at its offset (extending the file up to the window's end
/// when it was shorter).
pub proof fn lemma_record_size(data: Seq<u8>, offset: int, rec: Seq<u8>)
    requires
        offset >= 0,
    ensures
        record_bytes(data, offset).len() == 128,
        written_data(data, offset, rec).len() >= offset + 128,
        forall|i: int|
            offset <= i < offset + 128 ==> written_data(data, offset, rec)[i] == rec[i - offset],
{
}

} // verus!
