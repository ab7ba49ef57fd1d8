use cpm_core::{
    BdosFunction, CpmConsole, CpmEmulator, DriveFS, ExitReason, Fcb, HeadlessConsole,
    MemoryDriveFS, StepAction,
};
use z80emu::{Cpu, Reg8, StkReg16, Z80NMOS};

/// Host-side CPU bus over the engine's guest memory.
struct EngineBus<'a> {
    emu: &'a mut CpmEmulator<HeadlessConsole, MemoryDriveFS>,
}

impl z80emu::Memory for EngineBus<'_> {
    type Timestamp = i32;

    fn read_debug(&self, addr: u16) -> u8 {
        self.emu.mem_read(addr)
    }

    fn read_mem(&self, addr: u16, _ts: i32) -> u8 {
        self.emu.mem_read(addr)
    }

    fn write_mem(&mut self, addr: u16, value: u8, _ts: i32) {
        self.emu.mem_write(addr, value);
    }
}

impl z80emu::Io for EngineBus<'_> {
    type Timestamp = i32;
    type WrIoBreak = ();
    type RetiBreak = ();

    fn read_io(&mut self, _port: u16, _ts: i32) -> (u8, Option<core::num::NonZeroU16>) {
        (0xFF, None)
    }

    fn write_io(&mut self, _port: u16, _value: u8, _ts: i32) -> (Option<()>, Option<core::num::NonZeroU16>) {
        (None, None)
    }
}

/// Drive the CPU against the engine from `start` until the engine stops.
fn run_from(emu: &mut CpmEmulator<HeadlessConsole, MemoryDriveFS>, start: u16) -> ExitReason {
    let mut cpu = Z80NMOS::default();
    let mut clock = z80emu::host::TsCounter::<i32>::default();
    cpu.reset();
    cpu.set_pc(start);
    cpu.set_sp(0xFE00 - 2);
    loop {
        let pc = cpu.get_pc();
        let c = cpu.get_reg(Reg8::C, None);
        let e = cpu.get_reg(Reg8::E, None);
        let de = cpu.get_reg16(StkReg16::DE);
        let sp = cpu.get_sp();
        match emu.on_pc(pc, c, e, de, sp) {
            StepAction::Run => {
                let mut bus = EngineBus { emu };
                let _ = cpu.execute_next(&mut bus, &mut clock, None::<fn(z80emu::CpuDebug)>);
                if cpu.is_halt() {
                    emu.flush_open_files();
                    return ExitReason::Halt;
                }
            }
            StepAction::Jump { pc, sp, a, hl } => {
                if let Some(a) = a {
                    cpu.set_reg(Reg8::A, None, a);
                }
                if let Some(hl) = hl {
                    cpu.set_reg16(StkReg16::HL, hl);
                }
                cpu.set_sp(sp);
                cpu.set_pc(pc);
            }
            StepAction::Reload { pc, sp } => {
                cpu.reset();
                cpu.set_pc(pc);
                cpu.set_sp(sp);
            }
            StepAction::Stop { reason } => {
                return reason;
            }
        }
    }
}

#[test]
fn test_emulator_creation() {
    let console = HeadlessConsole::new();
    let emu: CpmEmulator<HeadlessConsole, MemoryDriveFS> = CpmEmulator::new(console);

    // Check BDOS vector at 0x0005
    assert_eq!(emu.mem_read(0x0005), 0xC3); // JP
    assert_eq!(emu.mem_read(0x0006), 0x00); // Low byte of BDOS
    assert_eq!(emu.mem_read(0x0007), 0xFE); // High byte of BDOS
}

#[test]
fn test_hello_world() {
    // LD C,2; LD E,'H'; CALL 5; LD E,'i'; CALL 5; JP 0
    let program = [
        0x0E, 0x02, // LD C, 2 (console output)
        0x1E, b'H', // LD E, 'H'
        0xCD, 0x05, 0x00, // CALL 0x0005 (BDOS)
        0x1E, b'i', // LD E, 'i'
        0xCD, 0x05, 0x00, // CALL 0x0005
        0xC3, 0x00, 0x00, // JP 0x0000 (warm boot)
    ];

    let console = HeadlessConsole::new();
    let mut emu: CpmEmulator<HeadlessConsole, MemoryDriveFS> = CpmEmulator::new(console);
    emu.load_com(&program);

    let reason = run_from(&mut emu, 0x0100);

    assert_eq!(reason, ExitReason::WarmBoot);
    assert_eq!(emu.console().output_string(), "Hi");
}

/// Write an FCB naming `name` at guest address `at`.
fn put_fcb(emu: &mut CpmEmulator<HeadlessConsole, MemoryDriveFS>, at: u16, name: &str) {
    let zeros = [0u8; 36];
    let mut fcb = Fcb::new(&zeros);
    fcb.parse_filename(name);
    emu.load_at(at, fcb.bytes().as_slice());
}

#[test]
fn test_write_then_read_record() {
    // open a new OUT.DAT on A:, fill the DMA buffer with 0xAA, write one
    // sequential record, close; reopen and read it back
    let console = HeadlessConsole::new();
    let mut emu: CpmEmulator<HeadlessConsole, MemoryDriveFS> = CpmEmulator::new(console);
    emu.mount(0, MemoryDriveFS::new());

    put_fcb(&mut emu, 0x005C, "OUT.DAT");
    let r = emu.dispatch_bdos(BdosFunction::MakeFile, 0, 0x005C);
    assert_eq!(r.a, Some(0));

    for i in 0..128u16 {
        emu.mem_write(0x0080 + i, 0xAA);
    }
    let r = emu.dispatch_bdos(BdosFunction::WriteSequential, 0, 0x005C);
    assert_eq!(r.a, Some(0));
    let r = emu.dispatch_bdos(BdosFunction::CloseFile, 0, 0x005C);
    assert_eq!(r.a, Some(0));

    // reopen and read the record back through a fresh FCB
    put_fcb(&mut emu, 0x005C, "OUT.DAT");
    let r = emu.dispatch_bdos(BdosFunction::OpenFile, 0, 0x005C);
    assert_eq!(r.a, Some(0));
    // clear the DMA buffer first so the read provably fills it
    for i in 0..128u16 {
        emu.mem_write(0x0080 + i, 0x00);
    }
    let r = emu.dispatch_bdos(BdosFunction::ReadSequential, 0, 0x005C);
    assert_eq!(r.a, Some(0));
    for i in 0..128u16 {
        assert_eq!(emu.mem_read(0x0080 + i), 0xAA);
    }
}

#[test]
fn test_read_past_eof() {
    let console = HeadlessConsole::new();
    let mut emu: CpmEmulator<HeadlessConsole, MemoryDriveFS> = CpmEmulator::new(console);
    let mut fs = MemoryDriveFS::new();
    fs.add_file("SHORT.DAT", vec![1, 2, 3]);
    emu.mount(0, fs);

    put_fcb(&mut emu, 0x005C, "SHORT.DAT");
    let r = emu.dispatch_bdos(BdosFunction::OpenFile, 0, 0x005C);
    assert_eq!(r.a, Some(0));

    // first read succeeds and pads the tail of the record with 0x1A
    let r = emu.dispatch_bdos(BdosFunction::ReadSequential, 0, 0x005C);
    assert_eq!(r.a, Some(0));
    assert_eq!(emu.mem_read(0x0080), 1);
    assert_eq!(emu.mem_read(0x0081), 2);
    assert_eq!(emu.mem_read(0x0082), 3);
    for i in 3..128u16 {
        assert_eq!(emu.mem_read(0x0080 + i), 0x1A);
    }

    // the record counter advanced to 1; the next read is past end-of-file:
    // A = 1 and the record counter does not move
    let before = emu.mem_read(0x005C + 32);
    assert_eq!(before, 1);
    let r = emu.dispatch_bdos(BdosFunction::ReadSequential, 0, 0x005C);
    assert_eq!(r.a, Some(1));
    assert_eq!(emu.mem_read(0x005C + 32), 1);
}

#[test]
fn test_handles_increase_and_are_not_recycled() {
    let console = HeadlessConsole::new();
    let mut emu: CpmEmulator<HeadlessConsole, MemoryDriveFS> = CpmEmulator::new(console);
    let mut fs = MemoryDriveFS::new();
    fs.add_file("A.DAT", vec![0; 1]);
    fs.add_file("B.DAT", vec![0; 1]);
    emu.mount(0, fs);

    put_fcb(&mut emu, 0x005C, "A.DAT");
    emu.dispatch_bdos(BdosFunction::OpenFile, 0, 0x005C);
    let h1 = Fcb::new(&read_back(&emu, 0x005C)).fd().unwrap();

    let r = emu.dispatch_bdos(BdosFunction::CloseFile, 0, 0x005C);
    assert_eq!(r.a, Some(0));

    put_fcb(&mut emu, 0x006C, "B.DAT");
    emu.dispatch_bdos(BdosFunction::OpenFile, 0, 0x006C);
    let h2 = Fcb::new(&read_back(&emu, 0x006C)).fd().unwrap();

    // the closed slot is kept: handles increase monotonically
    assert!(h2 > h1);
}

fn read_back(emu: &CpmEmulator<HeadlessConsole, MemoryDriveFS>, at: u16) -> [u8; 36] {
    let mut out = [0u8; 36];
    for i in 0..36u16 {
        out[i as usize] = emu.mem_read(at + i);
    }
    out
}

#[test]
fn test_search_with_wildcards() {
    // A: holds A.TXT, B.TXT, AA.COM; the pattern ???????? . TXT finds
    // A.TXT then B.TXT then runs out
    let console = HeadlessConsole::new();
    let mut emu: CpmEmulator<HeadlessConsole, MemoryDriveFS> = CpmEmulator::new(console);
    let mut fs = MemoryDriveFS::new();
    fs.add_file("A.TXT", vec![1]);
    fs.add_file("B.TXT", vec![2]);
    fs.add_file("AA.COM", vec![3]);
    emu.mount(0, fs);

    // FCB with name = "????????", ext = "TXT"
    let zeros = [0u8; 36];
    let mut fcb = Fcb::new(&zeros);
    fcb.blank();
    fcb.set_name("????????");
    fcb.set_ext("TXT");
    emu.load_at(0x005C, fcb.bytes().as_slice());

    let r = emu.dispatch_bdos(BdosFunction::SearchFirst, 0, 0x005C);
    assert_eq!(r.a, Some(0));
    // directory entry at the DMA buffer names A.TXT
    assert_eq!(emu.mem_read(0x0081), b'A');
    assert_eq!(emu.mem_read(0x0082), b' ');
    assert_eq!(emu.mem_read(0x0089), b'T');
    assert_eq!(emu.mem_read(0x008A), b'X');
    assert_eq!(emu.mem_read(0x008B), b'T');

    let r = emu.dispatch_bdos(BdosFunction::SearchNext, 0, 0);
    assert_eq!(r.a, Some(0));
    assert_eq!(emu.mem_read(0x0081), b'B');

    let r = emu.dispatch_bdos(BdosFunction::SearchNext, 0, 0);
    assert_eq!(r.a, Some(0xFF));
}

#[test]
fn test_search_snapshot_is_stable() {
    // drive changes after SearchFirst do not affect the running scan
    let console = HeadlessConsole::new();
    let mut emu: CpmEmulator<HeadlessConsole, MemoryDriveFS> = CpmEmulator::new(console);
    let mut fs = MemoryDriveFS::new();
    fs.add_file("A.TXT", vec![1]);
    fs.add_file("B.TXT", vec![2]);
    emu.mount(0, fs);

    let zeros = [0u8; 36];
    let mut fcb = Fcb::new(&zeros);
    fcb.blank();
    fcb.set_name("????????");
    fcb.set_ext("TXT");
    emu.load_at(0x005C, fcb.bytes().as_slice());

    let r = emu.dispatch_bdos(BdosFunction::SearchFirst, 0, 0x005C);
    assert_eq!(r.a, Some(0));
    assert_eq!(emu.mem_read(0x0081), b'A');

    // delete B.TXT behind the scan's back
    put_fcb(&mut emu, 0x006C, "B.TXT");
    let r = emu.dispatch_bdos(BdosFunction::DeleteFile, 0, 0x006C);
    assert_eq!(r.a, Some(0));

    // the snapshot still yields B.TXT
    let r = emu.dispatch_bdos(BdosFunction::SearchNext, 0, 0);
    assert_eq!(r.a, Some(0));
    assert_eq!(emu.mem_read(0x0081), b'B');
}

#[test]
fn test_warm_boot_reload() {
    // register a shell at 0x0100, run a program that calls BDOS 0: the
    // engine reloads the shell, resets the vectors, and control only comes
    // back when the reloaded shell halts
    let shell = [0x76u8]; // HALT
    let program = [
        0x0E, 0x00, // LD C, 0 (system reset)
        0xCD, 0x05, 0x00, // CALL 0x0005
    ];

    let console = HeadlessConsole::new();
    let mut emu: CpmEmulator<HeadlessConsole, MemoryDriveFS> = CpmEmulator::new(console);
    emu.set_shell(&shell, 0x0100);
    // overwrite the shell with the program; warm boot must restore the shell
    emu.load_at(0x0100, &program);
    emu.mem_write(0x0080, 7); // dirty the command-line length byte

    let reason = run_from(&mut emu, 0x0100);
    assert_eq!(reason, ExitReason::Halt);

    // warm-boot fidelity: low vectors, DMA byte, shell image back in place
    assert_eq!(emu.mem_read(0x0000), 0xC3);
    assert_eq!(emu.mem_read(0x0003), 0x00);
    assert_eq!(emu.mem_read(0x0004), 0x00);
    assert_eq!(emu.mem_read(0x0005), 0xC3);
    assert_eq!(emu.mem_read(0x0006), 0x00);
    assert_eq!(emu.mem_read(0x0007), 0xFE);
    assert_eq!(emu.mem_read(0x0080), 0);
    assert_eq!(emu.mem_read(0x0100), 0x76);
}

#[test]
fn test_bdos_misc_functions() {
    let console = HeadlessConsole::with_input(b"K");
    let mut emu: CpmEmulator<HeadlessConsole, MemoryDriveFS> = CpmEmulator::new(console);
    emu.mount(0, MemoryDriveFS::new());
    emu.mount(2, MemoryDriveFS::new());

    let r = emu.dispatch_bdos(BdosFunction::ReturnVersion, 0, 0);
    assert_eq!(r.hl, Some(0x0022));

    let r = emu.dispatch_bdos(BdosFunction::ReturnLoginVector, 0, 0);
    assert_eq!(r.hl, Some(0b101)); // drives A and C

    let r = emu.dispatch_bdos(BdosFunction::SelectDisk, 2, 0);
    assert_eq!(r.a, Some(0));
    let r = emu.dispatch_bdos(BdosFunction::ReturnCurrentDisk, 0, 0);
    assert_eq!(r.a, Some(2));
    let r = emu.dispatch_bdos(BdosFunction::SelectDisk, 5, 0);
    assert_eq!(r.a, Some(0xFF)); // unmounted

    let r = emu.dispatch_bdos(BdosFunction::ConsoleStatus, 0, 0);
    assert_eq!(r.a, Some(0xFF));
    let r = emu.dispatch_bdos(BdosFunction::ConsoleInput, 0, 0);
    assert_eq!(r.a, Some(b'K'));
    let r = emu.dispatch_bdos(BdosFunction::ConsoleStatus, 0, 0);
    assert_eq!(r.a, Some(0));
}

#[test]
fn test_print_string() {
    let console = HeadlessConsole::new();
    let mut emu: CpmEmulator<HeadlessConsole, MemoryDriveFS> = CpmEmulator::new(console);
    emu.load_at(0x0200, b"HELLO$IGNORED");
    let r = emu.dispatch_bdos(BdosFunction::PrintString, 0, 0x0200);
    assert_eq!(r.a, None);
    assert_eq!(emu.console().output_string(), "HELLO");
}

#[test]
fn test_read_console_buffer() {
    // type "AB<backspace>C<cr>" into a 10-byte buffer: stores "AC"
    let console = HeadlessConsole::with_input(&[b'A', b'B', 8, b'C', 13]);
    let mut emu: CpmEmulator<HeadlessConsole, MemoryDriveFS> = CpmEmulator::new(console);
    emu.mem_write(0x0200, 10); // capacity
    let r = emu.dispatch_bdos(BdosFunction::ReadConsoleBuffer, 0, 0x0200);
    assert_eq!(r.a, None);
    assert_eq!(emu.mem_read(0x0201), 2); // stored length
    assert_eq!(emu.mem_read(0x0202), b'A');
    assert_eq!(emu.mem_read(0x0203), b'C');
}

#[test]
fn test_close_out_of_range_handle() {
    // a well-signed handle pointing past the open-file table is invalid:
    // Close answers 0xFF and leaves the FCB alone
    let console = HeadlessConsole::new();
    let mut emu: CpmEmulator<HeadlessConsole, MemoryDriveFS> = CpmEmulator::new(console);
    emu.mount(0, MemoryDriveFS::new());

    let zeros = [0u8; 36];
    let mut fcb = Fcb::new(&zeros);
    fcb.parse_filename("GHOST.DAT");
    fcb.set_fd(5); // no file was ever opened
    emu.load_at(0x005C, fcb.bytes().as_slice());

    let r = emu.dispatch_bdos(BdosFunction::CloseFile, 0, 0x005C);
    assert_eq!(r.a, Some(0xFF));
    // the stored handle is untouched
    let back = read_back(&emu, 0x005C);
    assert_eq!(Fcb::new(&back).fd(), Some(5));
}
