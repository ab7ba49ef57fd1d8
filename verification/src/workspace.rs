//! Shared CP/M workspace: the 16 drive slots behind letters A-P, per-drive
//! configuration, a package cache, and shell discovery.
//!
//! Drives are a tagged union of the filesystem variants; a writable
//! configured drive wraps a package drive in a copy-on-write overlay.

use vstd::prelude::*;
use vstd::slice::slice_to_vec;

use crate::drive_fs::{normalize_83, to_8_3, DriveFS};
use crate::error::{CpmError, CpmResult};
use crate::memory_drive::{find_entry, MemoryDriveFS};
use crate::overlay_drive::OverlayDriveFS;
use crate::package::{chars_eq, string_from_chars, str_chars, FileEntry, LoadedPackage,
    PackageDriveFS};

verus! {

/// Drive configuration.
#[derive(Clone)]
pub struct DriveConfig {
    /// Drive letter (A-P).
    pub letter: char,
    /// Package names loaded on this drive.
    pub packages: Vec<String>,
    /// Whether the drive has a writable overlay layer.
    pub writable: bool,
}

/// Shell information found in a workspace.
#[derive(Clone)]
pub struct ShellInfo {
    /// Shell binary data.
    pub binary: Vec<u8>,
    /// Shell filename, such as `CCP.COM`.
    pub filename: String,
    /// Drive letter where the shell was found.
    pub drive: char,
    /// Load address (0x0100 by default, 0xDC00 for a relocated processor).
    pub load_address: u16,
    /// Package name that provided the shell.
    pub package_name: String,
}

/// File change event.
pub enum FileChangeEvent {
    Write { drive: char, filename: String },
    Delete { drive: char, filename: String },
    Rename { drive: char, old_name: String, new_name: String },
}

/// One drive slot: memory, package, or an overlay over a package drive.
pub enum AnyDrive {
    Memory(MemoryDriveFS),
    Package(PackageDriveFS),
    Overlay(OverlayDriveFS<PackageDriveFS>),
}

impl DriveFS for AnyDrive {
    open spec fn files(&self) -> Map<Seq<char>, Seq<u8>> {
        match self {
            AnyDrive::Memory(m) => m.files(),
            AnyDrive::Package(p) => p.files(),
            AnyDrive::Overlay(o) => o.files(),
        }
    }

    open spec fn virtual_names(&self) -> Set<Seq<char>> {
        match self {
            AnyDrive::Memory(m) => m.virtual_names(),
            AnyDrive::Package(p) => p.virtual_names(),
            AnyDrive::Overlay(o) => o.virtual_names(),
        }
    }

    open spec fn read_only(&self) -> bool {
        match self {
            AnyDrive::Memory(m) => m.read_only(),
            AnyDrive::Package(p) => p.read_only(),
            AnyDrive::Overlay(o) => o.read_only(),
        }
    }

    open spec fn wf(&self) -> bool {
        match self {
            AnyDrive::Memory(m) => m.wf(),
            AnyDrive::Package(p) => p.wf(),
            AnyDrive::Overlay(o) => o.wf(),
        }
    }

    fn read_file(&self, name: &str) -> (r: Option<Vec<u8>>) {
        match self {
            AnyDrive::Memory(m) => m.read_file(name),
            AnyDrive::Package(p) => p.read_file(name),
            AnyDrive::Overlay(o) => o.read_file(name),
        }
    }

    fn write_file(&mut self, name: &str, data: &[u8]) -> (r: CpmResult<()>) {
        match self {
            AnyDrive::Memory(m) => m.write_file(name, data),
            AnyDrive::Package(p) => p.write_file(name, data),
            AnyDrive::Overlay(o) => o.write_file(name, data),
        }
    }

    fn delete_file(&mut self, name: &str) -> (r: bool) {
        match self {
            AnyDrive::Memory(m) => m.delete_file(name),
            AnyDrive::Package(p) => p.delete_file(name),
            AnyDrive::Overlay(o) => o.delete_file(name),
        }
    }

    fn list_files(&self) -> (r: Vec<String>) {
        match self {
            AnyDrive::Memory(m) => m.list_files(),
            AnyDrive::Package(p) => p.list_files(),
            AnyDrive::Overlay(o) => o.list_files(),
        }
    }

    fn has_file(&self, name: &str) -> (r: bool) {
        match self {
            AnyDrive::Memory(m) => m.has_file(name),
            AnyDrive::Package(p) => p.has_file(name),
            AnyDrive::Overlay(o) => o.has_file(name),
        }
    }
}

/// Convert a drive letter to its slot (A = 0 through P = 15), rejecting
/// anything else.
pub fn drive_index(letter: char) -> (r: CpmResult<usize>)
    ensures
        drive_index_spec(letter) matches Some(i) ==> r == Ok::<usize, CpmError>(i as usize),
        drive_index_spec(letter) is None ==> r == Err::<usize, CpmError>(
            CpmError::InvalidDrive(letter),
        ),
{
    let v = letter as u32;
    let up: u32 = if 97 <= v && v <= 122 {
        v - 32
    } else {
        v
    };
    if 65 <= up && up <= 80 {
        Ok((up - 65) as usize)
    } else {
        Err(CpmError::InvalidDrive(letter))
    }
}

/// ASCII lowercase of a character.
pub open spec fn lower_char(c: char) -> char {
    if 'A' as u32 <= c as u32 && c as u32 <= 'Z' as u32 {
        ((c as u32 + 32) as u8) as char
    } else {
        c
    }
}

/// ASCII lowercase of a character sequence.
pub open spec fn lower_seq(s: Seq<char>) -> Seq<char> {
    s.map_values(|c: char| lower_char(c))
}

/// The ASCII-lowercased characters of a string (cache keys are compared
/// case-insensitively).
fn lower_chars(s: &str) -> (r: Vec<char>)
    ensures
        r@ == lower_seq(s@),
{
    let chars = str_chars(s);
    let mut out: Vec<char> = Vec::new();
    let mut i: usize = 0;
    proof {
        assert(out@ =~= lower_seq(chars@.take(0)));
    }
    while i < chars.len()
        invariant
            i <= chars@.len(),
            chars@ == s@,
            out@ == lower_seq(chars@.take(i as int)),
        decreases chars@.len() - i,
    {
        let c = chars[i];
        let v = c as u32;
        if 65 <= v && v <= 90 {
            let lowered = (v + 32) as u8;
            out.push(lowered as char);
        } else {
            out.push(c);
        }
        proof {
            assert(out@ =~= lower_seq(chars@.take(i as int + 1)));
        }
        i += 1;
    }
    proof {
        assert(chars@.take(chars@.len() as int) =~= chars@);
    }
    out
}

/// A hexadecimal digit.
pub open spec fn is_hex_digit(c: char) -> bool {
    let v = c as u32;
    ('0' as u32 <= v && v <= '9' as u32) || ('A' as u32 <= v && v <= 'F' as u32) || ('a' as u32
        <= v && v <= 'f' as u32)
}

/// The value of a hexadecimal digit.
pub open spec fn hex_digit_val(c: char) -> int {
    let v = c as u32;
    if '0' as u32 <= v && v <= '9' as u32 {
        v - '0' as u32
    } else if 'A' as u32 <= v && v <= 'F' as u32 {
        v - 'A' as u32 + 10
    } else {
        v - 'a' as u32 + 10
    }
}

/// The value of a string of hexadecimal digits.
pub open spec fn hex_val(s: Seq<char>) -> int
    decreases s.len(),
{
    if s.len() == 0 {
        0
    } else {
        hex_val(s.drop_last()) * 16 + hex_digit_val(s.last())
    }
}

/// The string with every leading `0x` or `0X` removed.
pub open spec fn strip_hex_prefixes(s: Seq<char>) -> Seq<char>
    decreases s.len(),
{
    if s.len() >= 2 && s[0] == '0' && (s[1] == 'x' || s[1] == 'X') {
        strip_hex_prefixes(s.skip(2))
    } else {
        s
    }
}

/// What a manifest load address parses to: after stripping `0x`/`0X`
/// prefixes, a nonempty string of hex digits whose value fits in 16 bits,
/// or nothing.
pub open spec fn spec_parse_load_address(s: Seq<char>) -> Option<u16> {
    let h = strip_hex_prefixes(s);
    if h.len() > 0 && (forall|i: int| 0 <= i < h.len() ==> is_hex_digit(#[trigger] h[i]))
        && hex_val(h) <= 0xFFFF {
        Some(hex_val(h) as u16)
    } else {
        None
    }
}

proof fn lemma_hex_val_nonneg(s: Seq<char>)
    requires
        forall|i: int| 0 <= i < s.len() ==> hex_digit_val(#[trigger] s[i]) >= 0,
    ensures
        hex_val(s) >= 0,
    decreases s.len(),
{
    if s.len() > 0 {
        assert(forall|i: int|
            0 <= i < s.drop_last().len() ==> hex_digit_val(#[trigger] s.drop_last()[i]) >= 0);
        lemma_hex_val_nonneg(s.drop_last());
    }
}

proof fn lemma_hex_val_prefix(s: Seq<char>, k: int)
    requires
        0 <= k <= s.len(),
        forall|i: int| 0 <= i < s.len() ==> hex_digit_val(#[trigger] s[i]) >= 0,
    ensures
        hex_val(s.take(k)) >= 0,
        hex_val(s) >= hex_val(s.take(k)),
    decreases s.len() - k,
{
    if k == s.len() {
        assert(s.take(k) =~= s);
        lemma_hex_val_nonneg(s);
    } else {
        lemma_hex_val_prefix(s, k + 1);
        assert(forall|i: int|
            0 <= i < s.take(k).len() ==> hex_digit_val(#[trigger] s.take(k)[i]) >= 0);
        lemma_hex_val_nonneg(s.take(k));
        assert(s.take(k + 1).drop_last() =~= s.take(k));
        assert(s.take(k + 1).last() == s[k]);
        assert(hex_val(s.take(k + 1)) == hex_val(s.take(k)) * 16 + hex_digit_val(s[k]));
    }
}

/// Parse hex digits from `v[from..]` as a 16-bit value.
fn hex_from_chars(v: &Vec<char>, from: usize) -> (r: Option<u16>)
    requires
        from <= v@.len(),
    ensures
        ({
            let h = v@.skip(from as int);
            if h.len() > 0 && (forall|i: int| 0 <= i < h.len() ==> is_hex_digit(#[trigger] h[i]))
                && hex_val(h) <= 0xFFFF {
                r == Some(hex_val(h) as u16)
            } else {
                r is None
            }
        }),
{
    let ghost h = v@.skip(from as int);
    if from == v.len() {
        return None;
    }
    let mut acc: u32 = 0;
    let mut i: usize = from;
    proof {
        assert(h.take(0) =~= Seq::<char>::empty());
    }
    while i < v.len()
        invariant
            from <= i <= v@.len(),
            from < v@.len(),
            h == v@.skip(from as int),
            acc <= 0xFFFF,
            acc == hex_val(h.take(i - from)),
            forall|t: int| 0 <= t < i - from ==> is_hex_digit(#[trigger] h[t]),
        decreases v@.len() - i,
    {
        let c = v[i];
        let cv = c as u32;
        let d: u32 = if 48 <= cv && cv <= 57 {
            cv - 48
        } else if 65 <= cv && cv <= 70 {
            cv - 55
        } else if 97 <= cv && cv <= 102 {
            cv - 87
        } else {
            proof {
                assert(h[i - from as int] == v@[i as int]);
                assert(!is_hex_digit(h[i - from as int]));
            }
            return None;
        };
        proof {
            assert(h[i - from as int] == v@[i as int]);
            assert(is_hex_digit(h[i - from as int]));
            assert(d == hex_digit_val(h[i - from as int]));
        }
        if acc > 0x0FFF {
            proof {
                assert(forall|t: int|
                    0 <= t < h.len() && !is_hex_digit(#[trigger] h[t]) ==> hex_digit_val(h[t])
                        >= 0 || true);
                if forall|t: int| 0 <= t < h.len() ==> is_hex_digit(#[trigger] h[t]) {
                    assert(forall|t: int|
                        0 <= t < h.len() ==> hex_digit_val(#[trigger] h[t]) >= 0);
                    lemma_hex_val_prefix(h, i - from as int + 1);
                    assert(h.take(i - from as int + 1).drop_last() =~= h.take(i - from as int));
                    assert(h.take(i - from as int + 1).last() == h[i - from as int]);
                    assert(hex_val(h.take(i - from as int + 1)) == acc * 16 + hex_digit_val(
                        h[i - from as int],
                    ));
                    assert(hex_val(h) > 0xFFFF);
                }
            }
            return None;
        }
        acc = acc * 16 + d;
        proof {
            assert(h.take(i - from as int + 1).drop_last() =~= h.take(i - from as int));
            assert(h.take(i - from as int + 1).last() == h[i - from as int]);
        }
        i += 1;
    }
    proof {
        assert(h.take(v@.len() - from as int) =~= h);
    }
    Some(acc as u16)
}

/// Parse a manifest load address: hex with optional `0x` or `0X` prefixes.
pub fn parse_load_address(s: &str) -> (r: Option<u16>)
    ensures
        r == spec_parse_load_address(s@),
{
    let chars = str_chars(s);
    let n = chars.len();
    let mut from: usize = 0;
    proof {
        assert(chars@.skip(0) =~= chars@);
    }
    while n >= 2 && from <= n - 2 && chars[from] == '0' && (chars[from + 1] == 'x' || chars[from
        + 1] == 'X')
        invariant
            from <= n,
            n == chars@.len(),
            chars@ == s@,
            strip_hex_prefixes(s@) == strip_hex_prefixes(chars@.skip(from as int)),
        decreases n - from,
    {
        proof {
            let rest = chars@.skip(from as int);
            assert(rest[0] == chars@[from as int]);
            assert(rest[1] == chars@[from as int + 1]);
            assert(rest.skip(2) =~= chars@.skip(from as int + 2));
        }
        from += 2;
    }
    proof {
        let rest = chars@.skip(from as int);
        if rest.len() >= 2 {
            assert(rest[0] == chars@[from as int]);
            assert(rest[1] == chars@[from as int + 1]);
        }
        assert(strip_hex_prefixes(rest) == rest);
    }
    hex_from_chars(&chars, from)
}

/// A manifest file entry that designates the boot shell.
pub open spec fn entry_is_shell(fe: FileEntry) -> bool {
    fe.file_type matches Some(t) && t@ == "shell"@
}

/// The first value stored under `key` in an association list of files.
pub open spec fn assoc_first(files: Seq<(String, Vec<u8>)>, key: Seq<char>) -> Option<Seq<u8>>
    decreases files.len(),
{
    if files.len() == 0 {
        None
    } else if files.first().0@ == key {
        Some(files.first().1@)
    } else {
        assoc_first(files.drop_first(), key)
    }
}

proof fn lemma_assoc_first_at(files: Seq<(String, Vec<u8>)>, key: Seq<char>, i: int)
    requires
        0 <= i < files.len(),
        files[i].0@ == key,
        forall|j: int| 0 <= j < i ==> (#[trigger] files[j]).0@ != key,
    ensures
        assoc_first(files, key) == Some(files[i].1@),
    decreases i,
{
    if i > 0 {
        assert(files.drop_first()[i - 1] == files[i]);
        assert(forall|j: int|
            0 <= j < i - 1 ==> (#[trigger] files.drop_first()[j]).0@ != key);
        lemma_assoc_first_at(files.drop_first(), key, i - 1);
    }
}

proof fn lemma_assoc_first_none(files: Seq<(String, Vec<u8>)>, key: Seq<char>)
    requires
        forall|j: int| 0 <= j < files.len() ==> (#[trigger] files[j]).0@ != key,
    ensures
        assoc_first(files, key) is None,
    decreases files.len(),
{
    if files.len() > 0 {
        assert(forall|j: int|
            0 <= j < files.drop_first().len() ==> (#[trigger] files.drop_first()[j]).0@ != key);
        lemma_assoc_first_none(files.drop_first(), key);
    }
}

/// The load address a file entry declares, at the default when absent or
/// unparsable.
pub open spec fn load_addr_of(o: Option<String>) -> u16 {
    match o {
        Some(sa) => match spec_parse_load_address(sa@) {
            Some(a) => a,
            None => 0x0100u16,
        },
        None => 0x0100u16,
    }
}

/// The first shell-typed entry of a manifest, at or after `j`, whose file
/// is present in the package.
pub open spec fn shell_entry_from(
    m_files: Seq<FileEntry>,
    pkg_files: Seq<(String, Vec<u8>)>,
    j: int,
) -> Option<int>
    decreases m_files.len() - j,
{
    if j < 0 || j >= m_files.len() {
        None
    } else if entry_is_shell(m_files[j]) && assoc_first(
        pkg_files,
        normalize_83(m_files[j].src@),
    ) is Some {
        Some(j)
    } else {
        shell_entry_from(m_files, pkg_files, j + 1)
    }
}

/// The first package at or after `p` with a usable shell-typed entry,
/// together with that entry's index.
pub open spec fn shell_pkg_from(pkgs: Seq<LoadedPackage>, p: int) -> Option<(int, int)>
    decreases pkgs.len() - p,
{
    if p < 0 || p >= pkgs.len() {
        None
    } else {
        match shell_entry_from(pkgs[p].manifest.files@, pkgs[p].files@, 0) {
            Some(j) => Some((p, j)),
            None => shell_pkg_from(pkgs, p + 1),
        }
    }
}

/// The conventional shell names, tried in this order.
pub open spec fn fallback_name(w: int) -> Seq<char> {
    if w == 0 {
        "XCCP.COM"@
    } else if w == 1 {
        "CCP.COM"@
    } else {
        "ZCCP.COM"@
    }
}

/// The first (name, package) fallback hit, scanning name-major from
/// `(w, p)`.
pub open spec fn fallback_pkg_from(pkgs: Seq<LoadedPackage>, w: int, p: int) -> Option<(int, int)>
    decreases 3 - w, pkgs.len() - p + 1,
{
    if w < 0 || w >= 3 || p < 0 || p > pkgs.len() {
        None
    } else if p == pkgs.len() {
        fallback_pkg_from(pkgs, w + 1, 0)
    } else if assoc_first(pkgs[p].files@, fallback_name(w)) is Some {
        Some((w, p))
    } else {
        fallback_pkg_from(pkgs, w, p + 1)
    }
}

/// The shell a set of packages provides: the first file entry of type
/// `shell` whose file is present, with its declared load address; otherwise
/// the first package holding `XCCP.COM`, `CCP.COM` or `ZCCP.COM` (in that
/// name order), at the default load address; otherwise nothing.
pub fn find_shell(packages: &Vec<LoadedPackage>) -> (r: Option<ShellInfo>)
    ensures
        ({
            match shell_pkg_from(packages@, 0) {
                Some(hit) => r matches Some(sh) && ({
                    let fe = packages@[hit.0].manifest.files@[hit.1];
                    &&& sh.filename@ == normalize_83(fe.src@)
                    &&& assoc_first(packages@[hit.0].files@, normalize_83(fe.src@)) == Some(
                        sh.binary@,
                    )
                    &&& sh.load_address == load_addr_of(fe.load_address)
                    &&& sh.package_name@ == packages@[hit.0].manifest.name@
                    &&& sh.drive == 'A'
                }),
                None => match fallback_pkg_from(packages@, 0, 0) {
                    Some(hit) => r matches Some(sh) && ({
                        &&& sh.filename@ == fallback_name(hit.0)
                        &&& assoc_first(packages@[hit.1].files@, fallback_name(hit.0)) == Some(
                            sh.binary@,
                        )
                        &&& sh.load_address == 0x0100
                        &&& sh.package_name@ == "unknown"@
                        &&& sh.drive == 'A'
                    }),
                    None => r is None,
                },
            }
        }),
{
    let mut p: usize = 0;
    while p < packages.len()
        invariant
            p <= packages@.len(),
            shell_pkg_from(packages@, 0) == shell_pkg_from(packages@, p as int),
        decreases packages@.len() - p,
    {
        let mut j: usize = 0;
        let f_total = packages[p].manifest.files.len();
        while j < f_total
            invariant
                p < packages@.len(),
                j <= f_total,
                f_total == packages@[p as int].manifest.files@.len(),
                shell_pkg_from(packages@, 0) == shell_pkg_from(packages@, p as int),
                shell_entry_from(
                    packages@[p as int].manifest.files@,
                    packages@[p as int].files@,
                    0,
                ) == shell_entry_from(
                    packages@[p as int].manifest.files@,
                    packages@[p as int].files@,
                    j as int,
                ),
            decreases f_total - j,
        {
            let is_shell: bool = match &packages[p].manifest.files[j].file_type {
                Some(t) => {
                    let tc = str_chars(t.as_str());
                    let sc = str_chars("shell");
                    chars_eq(&tc, &sc)
                },
                None => false,
            };
            proof {
                assert(is_shell == entry_is_shell(packages@[p as int].manifest.files@[j as int]));
            }
            if is_shell {
                let filename = to_8_3(packages[p].manifest.files[j].src.as_str());
                match find_entry(&packages[p].files, &filename) {
                    Some(k) => {
                        proof {
                            lemma_assoc_first_at(
                                packages@[p as int].files@,
                                filename@,
                                k as int,
                            );
                            assert(shell_entry_from(
                                packages@[p as int].manifest.files@,
                                packages@[p as int].files@,
                                j as int,
                            ) == Some(j as int));
                        }
                        let load_address: u16 = match &packages[p].manifest.files[j].load_address {
                            Some(sa) => match parse_load_address(sa.as_str()) {
                                Some(a) => a,
                                None => 0x0100,
                            },
                            None => 0x0100,
                        };
                        let binary = slice_to_vec(packages[p].files[k].1.as_slice());
                        return Some(
                            ShellInfo {
                                binary,
                                filename,
                                drive: 'A',
                                load_address,
                                package_name: packages[p].manifest.name.clone(),
                            },
                        );
                    },
                    None => {
                        proof {
                            lemma_assoc_first_none(packages@[p as int].files@, filename@);
                        }
                    },
                }
            }
            j += 1;
        }
        p += 1;
    }
    // fall back to the conventional shell names
    let mut which: usize = 0;
    proof {
        assert(fallback_pkg_from(packages@, 0, 0) == fallback_pkg_from(packages@, 0, 0));
    }
    while which < 3
        invariant
            which <= 3,
            shell_pkg_from(packages@, 0) is None,
            fallback_pkg_from(packages@, 0, 0) == fallback_pkg_from(packages@, which as int, 0),
        decreases 3 - which,
    {
        let name: String = if which == 0 {
            String::from_str("XCCP.COM")
        } else if which == 1 {
            String::from_str("CCP.COM")
        } else {
            String::from_str("ZCCP.COM")
        };
        proof {
            assert(name@ == fallback_name(which as int));
        }
        let mut p: usize = 0;
        while p < packages.len()
            invariant
                which < 3,
                p <= packages@.len(),
                name@ == fallback_name(which as int),
                shell_pkg_from(packages@, 0) is None,
                fallback_pkg_from(packages@, 0, 0) == fallback_pkg_from(
                    packages@,
                    which as int,
                    p as int,
                ),
            decreases packages@.len() - p,
        {
            match find_entry(&packages[p].files, &name) {
                Some(k) => {
                    proof {
                        lemma_assoc_first_at(packages@[p as int].files@, name@, k as int);
                    }
                    let binary = slice_to_vec(packages[p].files[k].1.as_slice());
                    return Some(
                        ShellInfo {
                            binary,
                            filename: name,
                            drive: 'A',
                            load_address: 0x0100,
                            package_name: String::from_str("unknown"),
                        },
                    );
                },
                None => {
                    proof {
                        lemma_assoc_first_none(packages@[p as int].files@, name@);
                    }
                },
            }
            p += 1;
        }
        which += 1;
    }
    None
}

/// The first configuration index at or after `c` whose letter names slot
/// `i`.
pub open spec fn first_config(configs: Seq<DriveConfig>, i: int, c: int) -> Option<int>
    decreases configs.len() - c,
{
    if c < 0 || c >= configs.len() {
        None
    } else if drive_index_spec(configs[c].letter) == Some(i) {
        Some(c)
    } else {
        first_config(configs, i, c + 1)
    }
}

/// Drop every configuration that names slot `idx`, keeping the rest in
/// order.
fn drop_configs_for(configs: &mut Vec<DriveConfig>, idx: usize)
    ensures
        forall|c: int|
            0 <= c < final(configs)@.len() ==> drive_index_spec(
                (#[trigger] final(configs)@[c]).letter,
            ) != Some(idx as int),
{
    let mut kept: Vec<DriveConfig> = Vec::new();
    while configs.len() > 0
        invariant
            forall|c: int|
                0 <= c < kept@.len() ==> drive_index_spec((#[trigger] kept@[c]).letter) != Some(
                    idx as int,
                ),
        decreases configs@.len(),
    {
        let cfg = configs.remove(0);
        let keep: bool = match drive_index(cfg.letter) {
            Ok(ci) => ci != idx,
            Err(_) => true,
        };
        if keep {
            kept.push(cfg);
        }
    }
    *configs = kept;
}

/// The first cache entry at or after `e` stored under `key`.
pub open spec fn cache_lookup(
    cache: Seq<(String, LoadedPackage)>,
    key: Seq<char>,
    e: int,
) -> Option<int>
    decreases cache.len() - e,
{
    if e < 0 || e >= cache.len() {
        None
    } else if cache[e].0@ == key {
        Some(e)
    } else {
        cache_lookup(cache, key, e + 1)
    }
}

proof fn lemma_cache_lookup_bounds(cache: Seq<(String, LoadedPackage)>, key: Seq<char>, e: int)
    ensures
        cache_lookup(cache, key, e) matches Some(x) ==> e <= x < cache.len(),
    decreases cache.len() - e,
{
    if 0 <= e && e < cache.len() && cache[e].0@ != key {
        lemma_cache_lookup_bounds(cache, key, e + 1);
    }
}

/// The scan through a configuration's package-name list, from `pi`: the
/// first name whose cached package holds a usable shell entry, as
/// (name index, cache index, file-entry index).
pub open spec fn pkg_scan(
    names: Seq<String>,
    cache: Seq<(String, LoadedPackage)>,
    pi: int,
) -> Option<(int, int, int)>
    decreases names.len() - pi,
{
    if pi < 0 || pi >= names.len() {
        None
    } else {
        match cache_lookup(cache, lower_seq(names[pi]@), 0) {
            Some(e) => match shell_entry_from(
                cache[e].1.manifest.files@,
                cache[e].1.files@,
                0,
            ) {
                Some(j) => Some((pi, e, j)),
                None => pkg_scan(names, cache, pi + 1),
            },
            None => pkg_scan(names, cache, pi + 1),
        }
    }
}

/// A drive slot's configured-package shell hit: through the first
/// configuration for the slot, its package list in order.
pub open spec fn ws_config_hit(
    configs: Seq<DriveConfig>,
    cache: Seq<(String, LoadedPackage)>,
    i: int,
) -> Option<(int, int, int)> {
    match first_config(configs, i, 0) {
        Some(c) => pkg_scan(configs[c].packages@, cache, 0),
        None => None,
    }
}

/// The first conventional shell name at or after `w` present on the drive
/// (stored or virtual).
pub open spec fn ws_fallback_hit(fs: AnyDrive, w: int) -> Option<int>
    decreases 3 - w,
{
    if w < 0 || w >= 3 {
        None
    } else if fs.files().contains_key(normalize_83(fallback_name(w)))
        || fs.virtual_names().contains(normalize_83(fallback_name(w))) {
        Some(w)
    } else {
        ws_fallback_hit(fs, w + 1)
    }
}

/// CP/M workspace: drive slots, per-drive configuration, a package cache.
pub struct Workspace {
    drives: Vec<Option<AnyDrive>>,
    configs: Vec<DriveConfig>,
    package_cache: Vec<(String, LoadedPackage)>,
}

impl Workspace {
    /// The 16 drive slots.
    pub closed spec fn slots(&self) -> Seq<Option<AnyDrive>> {
        self.drives@
    }

    /// The package cache entries (lowercased name, package), in order.
    pub closed spec fn cache(&self) -> Seq<(String, LoadedPackage)> {
        self.package_cache@
    }

    /// The drive configurations, in order.
    pub closed spec fn configs_view(&self) -> Seq<DriveConfig> {
        self.configs@
    }

    pub open spec fn wf(&self) -> bool {
        &&& self.slots().len() == 16
        &&& (forall|i: int|
            0 <= i < 16 ==> ((#[trigger] self.slots()[i]) matches Some(d) ==> d.wf()))
    }

    /// Create an empty workspace.
    pub fn new() -> (r: Self)
        ensures
            r.wf(),
            forall|i: int| 0 <= i < 16 ==> (#[trigger] r.slots()[i]) is None,
    {
        let mut drives: Vec<Option<AnyDrive>> = Vec::new();
        let mut i: usize = 0;
        while i < 16
            invariant
                i <= 16,
                drives@.len() == i,
                forall|j: int| 0 <= j < i ==> (#[trigger] drives@[j]) is None,
            decreases 16 - i,
        {
            drives.push(None);
            i += 1;
        }
        Workspace { drives, configs: Vec::new(), package_cache: Vec::new() }
    }

    /// Mount a filesystem on a drive letter.
    pub fn mount(&mut self, letter: char, fs: AnyDrive) -> (r: CpmResult<()>)
        requires
            old(self).wf(),
            fs.wf(),
        ensures
            final(self).wf(),
            drive_index_spec(letter) matches Some(i) ==> r is Ok && final(self).slots() == old(
                self,
            ).slots().update(i, Some(fs)),
            drive_index_spec(letter) is None ==> r == Err::<(), CpmError>(
                CpmError::InvalidDrive(letter),
            ) && final(self).slots() == old(self).slots(),
    {
        let idx = match drive_index(letter) {
            Ok(i) => i,
            Err(e) => {
                return Err(e);
            },
        };
        self.drives[idx] = Some(fs);
        proof {
            assert(0 <= idx < 16 && self.drives@ == old(self).slots().update(
                idx as int,
                Some(fs),
            ));
        }
        Ok(())
    }

    /// Unmount a drive letter and drop its configuration.
    pub fn unmount(&mut self, letter: char) -> (r: CpmResult<()>)
        requires
            old(self).wf(),
        ensures
            final(self).wf(),
            drive_index_spec(letter) matches Some(i) ==> r is Ok && final(self).slots() == old(
                self,
            ).slots().update(i, None::<AnyDrive>),
            drive_index_spec(letter) is None ==> r == Err::<(), CpmError>(
                CpmError::InvalidDrive(letter),
            ) && final(self).slots() == old(self).slots(),
            drive_index_spec(letter) matches Some(i) ==> forall|c: int|
                0 <= c < final(self).configs_view().len() ==> drive_index_spec(
                    (#[trigger] final(self).configs_view()[c]).letter,
                ) != Some(i),
    {
        let idx = match drive_index(letter) {
            Ok(i) => i,
            Err(e) => {
                return Err(e);
            },
        };
        self.drives[idx] = None;
        proof {
            assert(self.drives@ == old(self).slots().update(idx as int, None::<AnyDrive>));
        }
        drop_configs_for(&mut self.configs, idx);
        Ok(())
    }

    /// Whether a drive letter has a mounted filesystem.
    pub fn is_mounted(&self, letter: char) -> (r: bool)
        requires
            self.wf(),
        ensures
            r == match drive_index_spec(letter) {
                Some(i) => self.slots()[i] is Some,
                None => false,
            },
    {
        match drive_index(letter) {
            Ok(i) => {
                let slot = &self.drives[i];
                match slot.as_ref() {
                    Some(_) => true,
                    None => false,
                }
            },
            Err(_) => false,
        }
    }

    /// Read a file from a drive.
    pub fn read_file(&self, letter: char, name: &str) -> (r: Option<Vec<u8>>)
        requires
            self.wf(),
        ensures
            ({
                match drive_index_spec(letter) {
                    Some(i) => match self.slots()[i as int] {
                        Some(fs) => {
                            let key = normalize_83(name@);
                            if fs.virtual_names().contains(key) {
                                r is Some
                            } else {
                                match r {
                                    Some(d) => fs.files().contains_key(key) && d@
                                        == fs.files().index(key),
                                    None => !fs.files().contains_key(key),
                                }
                            }
                        },
                        None => r is None,
                    },
                    None => r is None,
                }
            }),
    {
        match drive_index(letter) {
            Ok(i) => {
                let slot = &self.drives[i];
                match slot.as_ref() {
                    Some(fs) => fs.read_file(name),
                    None => None,
                }
            },
            Err(_) => None,
        }
    }

    /// Write a file to a drive.
    pub fn write_file(&mut self, letter: char, name: &str, data: &[u8]) -> (r: CpmResult<()>)
        requires
            old(self).wf(),
        ensures
            final(self).wf(),
            ({
                match drive_index_spec(letter) {
                    Some(i) => match old(self).slots()[i as int] {
                        Some(fs) => {
                            &&& final(self).slots()[i as int] is Some
                            &&& (forall|j: int|
                                0 <= j < 16 && j != i ==> #[trigger] final(self).slots()[j] == old(
                                    self,
                                ).slots()[j])
                            &&& ({
                                let fs2 = final(self).slots()[i as int]->0;
                                if fs.read_only() {
                                    r == Err::<(), CpmError>(CpmError::ReadOnly) && fs2.files()
                                        == fs.files()
                                } else {
                                    r == Ok::<(), CpmError>(()) && fs2.files()
                                        == fs.files().insert(normalize_83(name@), data@)
                                }
                            })
                        },
                        None => r == Err::<(), CpmError>(CpmError::DriveNotMounted(letter))
                            && final(self).slots() == old(self).slots(),
                    },
                    None => r == Err::<(), CpmError>(CpmError::InvalidDrive(letter))
                        && final(self).slots() == old(self).slots(),
                }
            }),
    {
        let idx = match drive_index(letter) {
            Ok(i) => i,
            Err(_) => {
                return Err(CpmError::InvalidDrive(letter));
            },
        };
        let slot = self.drives.remove(idx);
        match slot {
            Some(mut fs) => {
                let r = fs.write_file(name, data);
                let newslot = Some(fs);
                let ghost ns = newslot;
                self.drives.insert(idx, newslot);
                proof {
                    assert(self.drives@ =~= old(self).slots().update(idx as int, ns));
                }
                r
            },
            None => {
                self.drives.insert(idx, None);
                proof {
                    assert(self.drives@ =~= old(self).slots());
                }
                Err(CpmError::DriveNotMounted(letter))
            },
        }
    }

    /// Delete a file from a drive; Ok holds whether it existed.
    pub fn delete_file(&mut self, letter: char, name: &str) -> (r: CpmResult<bool>)
        requires
            old(self).wf(),
        ensures
            final(self).wf(),
            ({
                match drive_index_spec(letter) {
                    Some(i) => match old(self).slots()[i as int] {
                        Some(fs) => {
                            let key = normalize_83(name@);
                            &&& final(self).slots()[i as int] is Some
                            &&& (forall|j: int|
                                0 <= j < 16 && j != i ==> #[trigger] final(self).slots()[j] == old(
                                    self,
                                ).slots()[j])
                            &&& ({
                                let fs2 = final(self).slots()[i as int]->0;
                                if fs.read_only() {
                                    r == Ok::<bool, CpmError>(false) && fs2.files() == fs.files()
                                } else {
                                    r == Ok::<bool, CpmError>(
                                        fs.files().contains_key(key)
                                            || fs.virtual_names().contains(key),
                                    ) && fs2.files() == fs.files().remove(key)
                                }
                            })
                        },
                        None => r == Err::<bool, CpmError>(CpmError::DriveNotMounted(letter))
                            && final(self).slots() == old(self).slots(),
                    },
                    None => r == Err::<bool, CpmError>(CpmError::InvalidDrive(letter))
                        && final(self).slots() == old(self).slots(),
                }
            }),
    {
        let idx = match drive_index(letter) {
            Ok(i) => i,
            Err(_) => {
                return Err(CpmError::InvalidDrive(letter));
            },
        };
        let slot = self.drives.remove(idx);
        match slot {
            Some(mut fs) => {
                let existed = fs.delete_file(name);
                let newslot = Some(fs);
                let ghost ns = newslot;
                self.drives.insert(idx, newslot);
                proof {
                    assert(self.drives@ =~= old(self).slots().update(idx as int, ns));
                }
                Ok(existed)
            },
            None => {
                self.drives.insert(idx, None);
                proof {
                    assert(self.drives@ =~= old(self).slots());
                }
                Err(CpmError::DriveNotMounted(letter))
            },
        }
    }

    /// List files on a drive.
    pub fn list_files(&self, letter: char) -> (r: CpmResult<Vec<String>>)
        requires
            self.wf(),
        ensures
            ({
                match drive_index_spec(letter) {
                    Some(i) => match self.slots()[i as int] {
                        Some(fs) => r matches Ok(names) && names@.map_values(|s: String| s@).to_set()
                            == fs.files().dom().union(fs.virtual_names()) && names@.map_values(
                            |s: String| s@,
                        ).no_duplicates(),
                        None => r == Err::<Vec<String>, CpmError>(
                            CpmError::DriveNotMounted(letter),
                        ),
                    },
                    None => r == Err::<Vec<String>, CpmError>(CpmError::InvalidDrive(letter)),
                }
            }),
    {
        match drive_index(letter) {
            Ok(i) => {
                let slot = &self.drives[i];
                match slot.as_ref() {
                    Some(fs) => Ok(fs.list_files()),
                    None => Err(CpmError::DriveNotMounted(letter)),
                }
            },
            Err(_) => Err(CpmError::InvalidDrive(letter)),
        }
    }

    /// Whether a file exists on a drive.
    pub fn file_exists(&self, letter: char, name: &str) -> (r: bool)
        requires
            self.wf(),
        ensures
            r == match drive_index_spec(letter) {
                Some(i) => self.slots()[i as int] matches Some(fs) && (fs.files().contains_key(
                    normalize_83(name@),
                ) || fs.virtual_names().contains(normalize_83(name@))),
                None => false,
            },
    {
        match drive_index(letter) {
            Ok(i) => {
                let slot = &self.drives[i];
                match slot.as_ref() {
                    Some(fs) => fs.has_file(name),
                    None => false,
                }
            },
            Err(_) => false,
        }
    }

    /// The letters of the first `n` slots that hold a drive, in order.
    pub open spec fn spec_mounted(slots: Seq<Option<AnyDrive>>, n: int) -> Seq<char>
        decreases n,
    {
        if n <= 0 {
            Seq::empty()
        } else {
            let rest = Self::spec_mounted(slots, n - 1);
            if slots[n - 1] is Some {
                rest.push(((64 + n) as u8) as char)
            } else {
                rest
            }
        }
    }

    /// The letters of the mounted drives, in order.
    pub fn mounted_drives(&self) -> (r: Vec<char>)
        requires
            self.wf(),
        ensures
            r@ == Self::spec_mounted(self.slots(), 16),
    {
        let mut r: Vec<char> = Vec::new();
        let mut i: usize = 0;
        proof {
            assert(r@ =~= Self::spec_mounted(self.slots(), 0));
        }
        while i < 16
            invariant
                i <= 16,
                self.wf(),
                r@ == Self::spec_mounted(self.slots(), i as int),
            decreases 16 - i,
        {
            let mounted = {
                let slot = &self.drives[i];
                match slot.as_ref() {
                    Some(_) => true,
                    None => false,
                }
            };
            if mounted {
                let v: u32 = 65 + i as u32;
                let b = v as u8;
                r.push(b as char);
            }
            i += 1;
        }
        r
    }

    /// Configure a drive from packages: a package drive, wrapped in a
    /// copy-on-write overlay when the configuration is writable; the slot
    /// then holds the packages' merged files.
    pub fn configure_drive(&mut self, config: DriveConfig, packages: Vec<LoadedPackage>) -> (r:
        CpmResult<()>)
        requires
            old(self).wf(),
        ensures
            final(self).wf(),
            drive_index_spec(config.letter) matches Some(i) ==> r is Ok && (forall|j: int|
                0 <= j < 16 && j != i ==> #[trigger] final(self).slots()[j] == old(self).slots()[j])
                && (final(self).slots()[i] matches Some(d) && d.files()
                == PackageDriveFS::files_of_packages(packages@) && d.read_only()
                == !config.writable) && final(self).configs_view().len() >= 1
                && final(self).configs_view().last() == config && (forall|c: int|
                0 <= c < final(self).configs_view().len() - 1 ==> drive_index_spec(
                    (#[trigger] final(self).configs_view()[c]).letter,
                ) != Some(i)),
            drive_index_spec(config.letter) is None ==> (r matches Err(e) && e
                == CpmError::InvalidDrive(config.letter)) && final(self).slots() == old(
                self,
            ).slots(),
    {
        let idx = match drive_index(config.letter) {
            Ok(i) => i,
            Err(e) => {
                return Err(e);
            },
        };
        let base = PackageDriveFS::from_packages(packages);
        let fs: AnyDrive = if config.writable {
            AnyDrive::Overlay(OverlayDriveFS::new(base))
        } else {
            AnyDrive::Package(base)
        };
        let ghost f = fs;
        self.drives[idx] = Some(fs);
        drop_configs_for(&mut self.configs, idx);
        self.configs.push(config);
        proof {
            assert(self.drives@ == old(self).slots().update(idx as int, Some(f)));
        }
        Ok(())
    }

    /// The first configuration recorded for a drive letter, if any.
    pub fn get_drive_config(&self, letter: char) -> (r: Option<&DriveConfig>)
        ensures
            match drive_index_spec(letter) {
                Some(i) => match first_config(self.configs_view(), i, 0) {
                    Some(c) => r matches Some(cfg) && *cfg == self.configs_view()[c],
                    None => r is None,
                },
                None => r is None,
            },
    {
        let idx = match drive_index(letter) {
            Ok(i) => i,
            Err(_) => {
                return None;
            },
        };
        let mut i: usize = 0;
        while i < self.configs.len()
            invariant
                i <= self.configs@.len(),
                drive_index_spec(letter) == Some(idx as int),
                first_config(self.configs_view(), idx as int, 0) == first_config(
                    self.configs_view(),
                    idx as int,
                    i as int,
                ),
            decreases self.configs@.len() - i,
        {
            match drive_index(self.configs[i].letter) {
                Ok(ci) => {
                    if ci == idx {
                        return Some(&self.configs[i]);
                    }
                },
                Err(_) => {},
            }
            i += 1;
        }
        None
    }

    /// Cache a loaded package under its lowercased name.
    pub fn cache_package(&mut self, name: &str, pkg: LoadedPackage)
        ensures
            exists|c: int|
                0 <= c < final(self).cache().len() && (#[trigger] final(self).cache()[c]).0@
                    == lower_seq(name@) && final(self).cache()[c].1 == pkg,
            final(self).slots() == old(self).slots(),
            final(self).configs_view() == old(self).configs_view(),
    {
        let key = string_from_chars(lower_chars(name));
        let mut i: usize = 0;
        let n = self.package_cache.len();
        while i < n
            invariant
                i <= n,
                n == self.package_cache@.len(),
                key@ == lower_seq(name@),
                self.drives@ == old(self).slots(),
                self.configs@ == old(self).configs_view(),
            decreases n - i,
        {
            if self.package_cache[i].0 == key {
                self.package_cache.remove(i);
                self.package_cache.push((key, pkg));
                proof {
                    let c = self.package_cache@.len() - 1;
                    assert(self.cache()[c].0@ == lower_seq(name@) && self.cache()[c].1 == pkg);
                }
                return ;
            }
            i += 1;
        }
        self.package_cache.push((key, pkg));
        proof {
            let c = self.package_cache@.len() - 1;
            assert(self.cache()[c].0@ == lower_seq(name@) && self.cache()[c].1 == pkg);
        }
    }

    /// Look a cached package up by lowercased name: the first cache entry
    /// under that key.
    pub fn get_cached_package(&self, name: &str) -> (r: Option<&LoadedPackage>)
        ensures
            match cache_lookup(self.cache(), lower_seq(name@), 0) {
                Some(e) => r matches Some(p) && *p == self.cache()[e].1,
                None => r is None,
            },
    {
        let key = string_from_chars(lower_chars(name));
        let mut i: usize = 0;
        while i < self.package_cache.len()
            invariant
                i <= self.package_cache@.len(),
                key@ == lower_seq(name@),
                cache_lookup(self.cache(), lower_seq(name@), 0) == cache_lookup(
                    self.cache(),
                    lower_seq(name@),
                    i as int,
                ),
            decreases self.package_cache@.len() - i,
        {
            if self.package_cache[i].0 == key {
                proof {
                    assert(self.cache()[i as int].0@ == lower_seq(name@));
                    assert(cache_lookup(self.cache(), lower_seq(name@), i as int) == Some(
                        i as int,
                    ));
                }
                return Some(&self.package_cache[i].1);
            }
            i += 1;
        }
        None
    }

    /// The whole shell scan from drive slot `i` upward: on each mounted
    /// slot, first the configured packages' shell entries, then the
    /// conventional names; the hit is `(drive, kind, a, b, c)` where kind 0
    /// is a configured hit `(name index, cache index, file index)` and
    /// kind 1 a conventional-name hit `(w, 0, 0)`.
    pub open spec fn ws_scan(&self, i: int) -> Option<(int, int, int, int, int)>
        decreases 16 - i,
    {
        if i < 0 || i >= 16 {
            None
        } else if self.slots()[i] is Some {
            match ws_config_hit(self.configs_view(), self.cache(), i) {
                Some(h) => Some((i, 0, h.0, h.1, h.2)),
                None => match ws_fallback_hit(self.slots()[i]->0, 0) {
                    Some(w) => Some((i, 1, w, 0, 0)),
                    None => self.ws_scan(i + 1),
                },
            }
        } else {
            self.ws_scan(i + 1)
        }
    }

    /// Find a shell among the mounted drives, scanning letters A to P: on
    /// each drive, first a `shell`-typed file entry of its configuration's
    /// cached packages (with its declared load address), then the
    /// conventional shell names on the drive itself at the default address;
    /// nothing only when the whole scan misses.
    pub fn find_shell(&self) -> (r: Option<ShellInfo>)
        requires
            self.wf(),
        ensures
            ({
                match self.ws_scan(0) {
                    None => r is None,
                    Some(hit) => r matches Some(sh) && ({
                        &&& drive_index_spec(sh.drive) == Some(hit.0)
                        &&& (hit.1 == 0 ==> ({
                            let pkg = self.cache()[hit.3].1;
                            let fe = pkg.manifest.files@[hit.4];
                            &&& sh.filename@ == normalize_83(fe.src@)
                            &&& assoc_first(pkg.files@, normalize_83(fe.src@)) == Some(sh.binary@)
                            &&& sh.load_address == load_addr_of(fe.load_address)
                            &&& sh.package_name@ == pkg.manifest.name@
                        }))
                        &&& (hit.1 == 1 ==> ({
                            let fs = self.slots()[hit.0]->0;
                            let key = normalize_83(fallback_name(hit.2));
                            &&& sh.filename@ == fallback_name(hit.2)
                            &&& sh.load_address == 0x0100
                            &&& sh.package_name@ == "unknown"@
                            &&& (fs.virtual_names().contains(key) || (fs.files().contains_key(key)
                                && fs.files()[key] == sh.binary@))
                        }))
                    }),
                }
            }),
    {
        let mut i: usize = 0;
        while i < 16
            invariant
                i <= 16,
                self.wf(),
                self.ws_scan(0) == self.ws_scan(i as int),
            decreases 16 - i,
        {
            let mounted = {
                let slot = &self.drives[i];
                match slot.as_ref() {
                    Some(_) => true,
                    None => false,
                }
            };
            if mounted {
                let letter: char = ((65 + i as u32) as u8) as char;
                proof {
                    assert(letter as u32 == 65 + i);
                    assert(drive_index_spec(letter) == Some(i as int));
                }
                // shell-typed entries of the cached packages this drive is
                // configured with
                match self.get_drive_config(letter) {
                    Some(config) => {
                        let mut pi: usize = 0;
                        let pn = config.packages.len();
                        proof {
                            let c = first_config(self.configs_view(), i as int, 0)->0;
                            assert(*config == self.configs_view()[c]);
                        }
                        while pi < pn
                            invariant
                                pi <= pn,
                                pn == config.packages@.len(),
                                self.wf(),
                                i < 16,
                                drive_index_spec(letter) == Some(i as int),
                                self.slots()[i as int] is Some,
                                self.ws_scan(0) == self.ws_scan(i as int),
                                first_config(self.configs_view(), i as int, 0) is Some,
                                *config == self.configs_view()[first_config(
                                    self.configs_view(),
                                    i as int,
                                    0,
                                )->0],
                                pkg_scan(config.packages@, self.cache(), 0) == pkg_scan(
                                    config.packages@,
                                    self.cache(),
                                    pi as int,
                                ),
                            decreases pn - pi,
                        {
                            match self.get_cached_package(config.packages[pi].as_str()) {
                                Some(pkg) => {
                                    let ghost e0 = cache_lookup(
                                        self.cache(),
                                        lower_seq(config.packages@[pi as int]@),
                                        0,
                                    )->0;
                                    proof {
                                        lemma_cache_lookup_bounds(
                                            self.cache(),
                                            lower_seq(config.packages@[pi as int]@),
                                            0,
                                        );
                                        assert(*pkg == self.cache()[e0].1);
                                    }
                                    let mut fi: usize = 0;
                                    let fnum = pkg.manifest.files.len();
                                    while fi < fnum
                                        invariant
                                            fi <= fnum,
                                            fnum == pkg.manifest.files@.len(),
                                            self.wf(),
                                            i < 16,
                                            pi < pn,
                                            pn == config.packages@.len(),
                                            drive_index_spec(letter) == Some(i as int),
                                            self.slots()[i as int] is Some,
                                            self.ws_scan(0) == self.ws_scan(i as int),
                                            first_config(self.configs_view(), i as int, 0)
                                                is Some,
                                            *config == self.configs_view()[first_config(
                                                self.configs_view(),
                                                i as int,
                                                0,
                                            )->0],
                                            pkg_scan(config.packages@, self.cache(), 0)
                                                == pkg_scan(
                                                config.packages@,
                                                self.cache(),
                                                pi as int,
                                            ),
                                            0 <= e0 < self.cache().len(),
                                            cache_lookup(
                                                self.cache(),
                                                lower_seq(config.packages@[pi as int]@),
                                                0,
                                            ) == Some(e0),
                                            *pkg == self.cache()[e0].1,
                                            shell_entry_from(
                                                pkg.manifest.files@,
                                                pkg.files@,
                                                0,
                                            ) == shell_entry_from(
                                                pkg.manifest.files@,
                                                pkg.files@,
                                                fi as int,
                                            ),
                                        decreases fnum - fi,
                                    {
                                        let fe = &pkg.manifest.files[fi];
                                        let is_shell: bool = match &fe.file_type {
                                            Some(t) => {
                                                let tc = str_chars(t.as_str());
                                                let sc = str_chars("shell");
                                                chars_eq(&tc, &sc)
                                            },
                                            None => false,
                                        };
                                        proof {
                                            assert(is_shell == entry_is_shell(
                                                pkg.manifest.files@[fi as int],
                                            ));
                                        }
                                        if is_shell {
                                            let filename = to_8_3(fe.src.as_str());
                                            match find_entry(&pkg.files, &filename) {
                                                Some(k) => {
                                                    proof {
                                                        lemma_assoc_first_at(
                                                            pkg.files@,
                                                            filename@,
                                                            k as int,
                                                        );
                                                        assert(shell_entry_from(
                                                            pkg.manifest.files@,
                                                            pkg.files@,
                                                            fi as int,
                                                        ) == Some(fi as int));
                                                        assert(pkg_scan(
                                                            config.packages@,
                                                            self.cache(),
                                                            pi as int,
                                                        ) == Some((pi as int, e0, fi as int)));
                                                        assert(self.ws_scan(i as int) == Some(
                                                            (i as int, 0int, pi as int, e0, fi as int),
                                                        ));
                                                    }
                                                    let load_address: u16 = match &fe.load_address {
                                                        Some(sa) => match parse_load_address(
                                                            sa.as_str(),
                                                        ) {
                                                            Some(a) => a,
                                                            None => 0x0100,
                                                        },
                                                        None => 0x0100,
                                                    };
                                                    return Some(
                                                        ShellInfo {
                                                            binary: slice_to_vec(
                                                                pkg.files[k].1.as_slice(),
                                                            ),
                                                            filename,
                                                            drive: letter,
                                                            load_address,
                                                            package_name:
                                                                pkg.manifest.name.clone(),
                                                        },
                                                    );
                                                },
                                                None => {
                                                    proof {
                                                        lemma_assoc_first_none(
                                                            pkg.files@,
                                                            filename@,
                                                        );
                                                    }
                                                },
                                            }
                                        }
                                        fi += 1;
                                    }
                                },
                                None => {},
                            }
                            pi += 1;
                        }
                        proof {
                            assert(ws_config_hit(self.configs_view(), self.cache(), i as int)
                                is None);
                        }
                    },
                    None => {
                        proof {
                            assert(ws_config_hit(self.configs_view(), self.cache(), i as int)
                                is None);
                        }
                    },
                }
                // fall back to the conventional shell names
                let ghost fsv = self.slots()[i as int]->0;
                let mut which: usize = 0;
                while which < 3
                    invariant
                        which <= 3,
                        self.wf(),
                        i < 16,
                        drive_index_spec(letter) == Some(i as int),
                        self.slots()[i as int] is Some,
                        fsv == self.slots()[i as int]->0,
                        self.ws_scan(0) == self.ws_scan(i as int),
                        ws_config_hit(self.configs_view(), self.cache(), i as int) is None,
                        ws_fallback_hit(fsv, 0) == ws_fallback_hit(fsv, which as int),
                    decreases 3 - which,
                {
                    let name: &str = if which == 0 {
                        "XCCP.COM"
                    } else if which == 1 {
                        "CCP.COM"
                    } else {
                        "ZCCP.COM"
                    };
                    proof {
                        assert(name@ == fallback_name(which as int));
                    }
                    let found: Option<Vec<u8>> = {
                        let slot = &self.drives[i];
                        match slot.as_ref() {
                            Some(fs) => fs.read_file(name),
                            None => None,
                        }
                    };
                    match found {
                        Some(data) => {
                            proof {
                                assert(ws_fallback_hit(fsv, which as int) == Some(which as int));
                                assert(self.ws_scan(i as int) == Some(
                                    (i as int, 1int, which as int, 0int, 0int),
                                ));
                            }
                            return Some(
                                ShellInfo {
                                    binary: data,
                                    filename: String::from_str(name),
                                    drive: letter,
                                    load_address: 0x0100,
                                    package_name: String::from_str("unknown"),
                                },
                            );
                        },
                        None => {},
                    }
                    which += 1;
                }
                proof {
                    assert(ws_fallback_hit(fsv, 0) is None);
                    assert(self.ws_scan(i as int) == self.ws_scan(i as int + 1));
                }
            }
            i += 1;
        }
        None
    }

    /// Mount an empty writable memory drive.
    pub fn create_memory_drive(&mut self, letter: char) -> (r: CpmResult<()>)
        requires
            old(self).wf(),
        ensures
            final(self).wf(),
            drive_index_spec(letter) matches Some(i) ==> r is Ok && (forall|j: int|
                0 <= j < 16 && j != i ==> #[trigger] final(self).slots()[j] == old(self).slots()[j])
                && (final(self).slots()[i] matches Some(d) && d.files() == Map::<
                Seq<char>,
                Seq<u8>,
            >::empty() && d.virtual_names() == Set::<Seq<char>>::empty() && !d.read_only()),
            drive_index_spec(letter) is None ==> r == Err::<(), CpmError>(
                CpmError::InvalidDrive(letter),
            ) && final(self).slots() == old(self).slots(),
    {
        let idx = match drive_index(letter) {
            Ok(i) => i,
            Err(e) => {
                return Err(e);
            },
        };
        let fs = AnyDrive::Memory(MemoryDriveFS::new());
        let ghost f = fs;
        self.drives[idx] = Some(fs);
        proof {
            assert(self.drives@[idx as int] == Some(f));
        }
        Ok(())
    }
}

/// The slot a drive letter names, as a spec value.
pub open spec fn drive_index_spec(letter: char) -> Option<int> {
    let v = letter as u32;
    let up: u32 = if 'a' as u32 <= v && v <= 'z' as u32 {
        (v - 32) as u32
    } else {
        v
    };
    if 'A' as u32 <= up && up <= 'P' as u32 {
        Some((up - 'A' as u32) as int)
    } else {
        None
    }
}

} // verus!
