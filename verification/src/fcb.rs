//! File Control Block (FCB): a typed lens over the 36-byte structure a CP/M
//! program hands to BDOS file calls.
//!
//! Layout: byte 0 drive; bytes 1-8 filename; 9-11 extension; 12 extent (EX);
//! 13-14 S1/S2; 15 record count (RC); 16-31 allocation map, whose first four
//! bytes this engine repurposes as a signed file handle; 32 current record
//! (CR); 33-35 random record number, little-endian.

use vstd::prelude::*;
use vstd::string::{StrSliceExecFns, StringSliceAdditionalSpecFns};

use crate::drive_fs::string_from_ascii;

verus! {

/// Size of an FCB in bytes.
pub const FCB_SIZE: usize = 36;

/// Handles are stored XOR-ed with this signature to detect stale FCBs.
pub const FD_SIGNATURE: u16 = 0xBEEF;

/// ASCII uppercase of a byte.
pub open spec fn upper_byte(b: u8) -> u8 {
    if 97 <= b && b <= 122 {
        (b - 32) as u8
    } else {
        b
    }
}

/// A field byte masked to 7 bits, as a character.
pub open spec fn masked_char(b: u8) -> char {
    (b & 0x7F) as char
}

/// The characters of a name or extension field: each byte masked to 7 bits,
/// cut at the first space.
pub open spec fn field_chars(s: Seq<u8>) -> Seq<char>
    decreases s.len(),
{
    if s.len() == 0 {
        Seq::empty()
    } else if s.first() & 0x7F == 32 {
        Seq::empty()
    } else {
        seq![masked_char(s.first())] + field_chars(s.drop_first())
    }
}

/// A name written into a field: its bytes uppercased, space-padded to
/// `width`.
pub open spec fn padded_field(bytes: Seq<u8>, width: nat) -> Seq<u8> {
    Seq::new(
        width,
        |i: int|
            if i < bytes.len() {
                upper_byte(bytes[i])
            } else {
                32
            },
    )
}

/// The name of the FCB with bytes `m` (characters before the first space).
pub open spec fn spec_name(m: Seq<u8>) -> Seq<char> {
    field_chars(m.subrange(1, 9))
}

/// The extension of the FCB with bytes `m`.
pub open spec fn spec_ext(m: Seq<u8>) -> Seq<char> {
    field_chars(m.subrange(9, 12))
}

/// Name and extension joined with a dot; just the name when the extension is
/// empty.
pub open spec fn spec_filename(m: Seq<u8>) -> Seq<char> {
    if spec_ext(m).len() == 0 {
        spec_name(m)
    } else {
        spec_name(m) + seq!['.'] + spec_ext(m)
    }
}

/// The file handle held in bytes 16-19, as two little-endian words `n1`,
/// `n2`: valid iff `n1` is nonzero and `n1 XOR 0xBEEF == n2`.
pub open spec fn spec_fd(m: Seq<u8>) -> Option<u32> {
    let n1 = (m[0x10] as u16) | ((m[0x11] as u16) << 8);
    let n2 = (m[0x12] as u16) | ((m[0x13] as u16) << 8);
    if n1 != 0 && (n1 ^ FD_SIGNATURE) == n2 {
        Some(n1 as u32)
    } else {
        None
    }
}

/// The bytes after storing handle `n`: `n1 = n` truncated to 16 bits,
/// `n2 = n1 XOR 0xBEEF`, both little-endian in bytes 16-19.
pub open spec fn spec_set_fd(m: Seq<u8>, n: u32) -> Seq<u8> {
    let n1 = n as u16;
    let n2 = n1 ^ FD_SIGNATURE;
    m.update(0x10, n1 as u8).update(0x11, (n1 >> 8) as u8).update(0x12, n2 as u8).update(
        0x13,
        (n2 >> 8) as u8,
    )
}

/// The bytes after clearing the handle.
pub open spec fn spec_clear_fd(m: Seq<u8>) -> Seq<u8> {
    m.update(0x10, 0u8).update(0x11, 0u8).update(0x12, 0u8).update(0x13, 0u8)
}

/// The sequential record number: CR | EX << 7 | S2 << 12.
pub open spec fn spec_current_record(m: Seq<u8>) -> u32 {
    (m[0x20] as u32) | ((m[0x0C] as u32) << 7) | ((m[0x0E] as u32) << 12)
}

/// The bytes after setting the sequential record number to `n`:
/// CR = n & 0x7F, EX = (n >> 7) & 0x1F, S2 = the remaining bits.
pub open spec fn spec_set_current_record(m: Seq<u8>, n: u32) -> Seq<u8> {
    m.update(0x20, (n & 0x7F) as u8).update(0x0C, ((n >> 7) & 0x1F) as u8).update(
        0x0E,
        (n >> 12) as u8,
    )
}

/// The 24-bit random record number, little-endian in bytes 33-35.
pub open spec fn spec_random_record(m: Seq<u8>) -> u32 {
    (m[0x21] as u32) | ((m[0x22] as u32) << 8) | ((m[0x23] as u32) << 16)
}

/// The bytes after setting the random record number.
pub open spec fn spec_set_random_record(m: Seq<u8>, n: u32) -> Seq<u8> {
    m.update(0x21, (n & 0xFF) as u8).update(0x22, ((n >> 8) & 0xFF) as u8).update(
        0x23,
        ((n >> 16) & 0xFF) as u8,
    )
}

/// The pattern byte at position `i`: the pattern space-padded, masked to 7
/// bits.
pub open spec fn pat_at(p: Seq<u8>, i: int) -> u8 {
    if i < p.len() {
        (p[i] & 0x7F) as u8
    } else {
        32
    }
}

/// Wildcard match of FCB bytes `m` against a name and extension pattern:
/// a `?` (63) matches any byte; all 8 + 3 positions must match after masking
/// to 7 bits.
pub open spec fn spec_matches(m: Seq<u8>, pn: Seq<u8>, pe: Seq<u8>) -> bool {
    (forall|i: int| 0 <= i < 8 ==> pat_at(pn, i) == 63 || pat_at(pn, i) == m[1 + i] & 0x7F)
        && (forall|i: int| 0 <= i < 3 ==> pat_at(pe, i) == 63 || pat_at(pe, i) == m[9 + i] & 0x7F)
}

/// The drive byte `parse_filename` stores: for `X:...` with an ASCII letter
/// `X` (after uppercasing), `X - 'A' + 1`; otherwise 0.
pub open spec fn spec_parse_drive(s: Seq<char>) -> u8 {
    if s.len() >= 2 && s[1] == ':' {
        let v = crate::drive_fs::upper_char(s[0]) as u32;
        if 'A' as u32 <= v && v <= 'Z' as u32 {
            (v - 64) as u8
        } else {
            0
        }
    } else {
        0
    }
}

/// The filename with any `X:` drive prefix removed.
pub open spec fn spec_parse_rest(s: Seq<char>) -> Seq<char> {
    if s.len() >= 2 && s[1] == ':' {
        s.skip(2)
    } else {
        s
    }
}

/// The name part of a parsed filename: before the last dot, or all of it.
pub open spec fn spec_parse_name(s: Seq<char>) -> Seq<char> {
    let rest = spec_parse_rest(s);
    let d = crate::drive_fs::last_dot(rest);
    if d < 0 {
        rest
    } else {
        rest.take(d)
    }
}

/// The extension part of a parsed filename: after the last dot, or empty.
pub open spec fn spec_parse_ext(s: Seq<char>) -> Seq<char> {
    let rest = spec_parse_rest(s);
    let d = crate::drive_fs::last_dot(rest);
    if d < 0 {
        Seq::empty()
    } else {
        rest.skip(d + 1)
    }
}

/// File Control Block: an owned copy of the 36 bytes, edited through typed
/// accessors and written back to guest memory by the caller.
pub struct Fcb {
    mem: Vec<u8>,
}

impl View for Fcb {
    type V = Seq<u8>;

    closed spec fn view(&self) -> Seq<u8> {
        self.mem@
    }
}

impl Fcb {
    pub open spec fn wf(&self) -> bool {
        self@.len() == 36
    }

    /// Create an FCB from the first 36 bytes of `memory`.
    pub fn new(memory: &[u8]) -> (r: Fcb)
        requires
            memory@.len() >= 36,
        ensures
            r@ == memory@.take(36),
            r.wf(),
    {
        let mut mem: Vec<u8> = Vec::new();
        let mut i: usize = 0;
        while i < 36
            invariant
                i <= 36,
                memory@.len() >= 36,
                mem@ =~= memory@.take(i as int),
            decreases 36 - i,
        {
            mem.push(memory[i]);
            proof {
                assert(mem@ =~= memory@.take(i as int + 1));
            }
            i += 1;
        }
        Fcb { mem }
    }

    /// The raw 36 bytes, for writing back to guest memory.
    pub fn bytes(&self) -> (r: &Vec<u8>)
        ensures
            r@ == self@,
    {
        &self.mem
    }

    /// Drive number: 0 = current, 1 = A:, 2 = B:, and so on.
    pub fn drive(&self) -> (r: u8)
        requires
            self.wf(),
        ensures
            r == self@[0],
    {
        self.mem[0]
    }

    pub fn set_drive(&mut self, drive: u8)
        requires
            old(self).wf(),
        ensures
            final(self)@ == old(self)@.update(0, drive),
            final(self).wf(),
    {
        self.mem[0] = drive;
    }

    /// The raw filename bytes (8 bytes, space-padded).
    pub fn raw_name(&self) -> (r: Vec<u8>)
        requires
            self.wf(),
        ensures
            r@ == self@.subrange(1, 9),
    {
        let mut out: Vec<u8> = Vec::new();
        let mut i: usize = 1;
        while i < 9
            invariant
                1 <= i <= 9,
                self.wf(),
                out@ =~= self@.subrange(1, i as int),
            decreases 9 - i,
        {
            out.push(self.mem[i]);
            proof {
                assert(out@ =~= self@.subrange(1, i as int + 1));
            }
            i += 1;
        }
        out
    }

    /// The raw extension bytes (3 bytes, space-padded).
    pub fn raw_ext(&self) -> (r: Vec<u8>)
        requires
            self.wf(),
        ensures
            r@ == self@.subrange(9, 12),
    {
        let mut out: Vec<u8> = Vec::new();
        let mut i: usize = 9;
        while i < 12
            invariant
                9 <= i <= 12,
                self.wf(),
                out@ =~= self@.subrange(9, i as int),
            decreases 12 - i,
        {
            out.push(self.mem[i]);
            proof {
                assert(out@ =~= self@.subrange(9, i as int + 1));
            }
            i += 1;
        }
        out
    }

    /// The filename (masked to 7 bits, cut at the first space).
    pub fn name(&self) -> (r: String)
        requires
            self.wf(),
        ensures
            r@ == spec_name(self@),
    {
        read_field(&self.mem, 1, 9)
    }

    /// The extension (masked to 7 bits, cut at the first space).
    pub fn extension(&self) -> (r: String)
        requires
            self.wf(),
        ensures
            r@ == spec_ext(self@),
    {
        read_field(&self.mem, 9, 12)
    }

    /// The full filename, `NAME.EXT` or just `NAME` when the extension is
    /// empty.
    pub fn filename(&self) -> (r: String)
        requires
            self.wf(),
        ensures
            r@ == spec_filename(self@),
    {
        let name = self.name();
        let ext = self.extension();
        if ext.as_str().unicode_len() == 0 {
            name
        } else {
            proof {
                reveal_strlit(".");
            }
            let mut s = name;
            s.append(".");
            s.append(ext.as_str());
            proof {
                assert(s@ =~= spec_filename(self@));
            }
            s
        }
    }

    /// Write the filename field: the string's bytes uppercased,
    /// space-padded to 8.
    pub fn set_name(&mut self, name: &str)
        requires
            old(self).wf(),
        ensures
            final(self).wf(),
            final(self)@.subrange(1, 9) == padded_field(name.spec_bytes(), 8),
            forall|i: int|
                0 <= i < 36 && !(1 <= i < 9) ==> final(self)@[i] == old(self)@[i],
    {
        let bytes = name.as_bytes_vec();
        write_field(&mut self.mem, &bytes, 1, 8);
    }

    /// Write the extension field: the string's bytes uppercased,
    /// space-padded to 3.
    pub fn set_ext(&mut self, ext: &str)
        requires
            old(self).wf(),
        ensures
            final(self).wf(),
            final(self)@.subrange(9, 12) == padded_field(ext.spec_bytes(), 3),
            forall|i: int|
                0 <= i < 36 && !(9 <= i < 12) ==> final(self)@[i] == old(self)@[i],
    {
        let bytes = ext.as_bytes_vec();
        write_field(&mut self.mem, &bytes, 9, 3);
    }

    /// Current extent (EX).
    pub fn ex(&self) -> (r: u8)
        requires
            self.wf(),
        ensures
            r == self@[0x0C],
    {
        self.mem[0x0C]
    }

    pub fn set_ex(&mut self, v: u8)
        requires
            old(self).wf(),
        ensures
            final(self)@ == old(self)@.update(0x0C, v),
            final(self).wf(),
    {
        self.mem[0x0C] = v;
    }

    /// Reserved byte S1.
    pub fn s1(&self) -> (r: u8)
        requires
            self.wf(),
        ensures
            r == self@[0x0D],
    {
        self.mem[0x0D]
    }

    pub fn set_s1(&mut self, v: u8)
        requires
            old(self).wf(),
        ensures
            final(self)@ == old(self)@.update(0x0D, v),
            final(self).wf(),
    {
        self.mem[0x0D] = v;
    }

    /// S2: the high bits of the extent for large files.
    pub fn s2(&self) -> (r: u8)
        requires
            self.wf(),
        ensures
            r == self@[0x0E],
    {
        self.mem[0x0E]
    }

    pub fn set_s2(&mut self, v: u8)
        requires
            old(self).wf(),
        ensures
            final(self)@ == old(self)@.update(0x0E, v),
            final(self).wf(),
    {
        self.mem[0x0E] = v;
    }

    /// Record count in the current extent (RC).
    pub fn rc(&self) -> (r: u8)
        requires
            self.wf(),
        ensures
            r == self@[0x0F],
    {
        self.mem[0x0F]
    }

    pub fn set_rc(&mut self, v: u8)
        requires
            old(self).wf(),
        ensures
            final(self)@ == old(self)@.update(0x0F, v),
            final(self).wf(),
    {
        self.mem[0x0F] = v;
    }

    /// Current record within the extent (CR).
    pub fn cr(&self) -> (r: u8)
        requires
            self.wf(),
        ensures
            r == self@[0x20],
    {
        self.mem[0x20]
    }

    pub fn set_cr(&mut self, v: u8)
        requires
            old(self).wf(),
        ensures
            final(self)@ == old(self)@.update(0x20, v),
            final(self).wf(),
    {
        self.mem[0x20] = v;
    }

    /// The sequential record number CR | EX << 7 | S2 << 12.
    pub fn current_record(&self) -> (r: u32)
        requires
            self.wf(),
        ensures
            r == spec_current_record(self@),
    {
        (self.mem[0x20] as u32) | ((self.mem[0x0C] as u32) << 7) | ((self.mem[0x0E] as u32) << 12)
    }

    /// Set the sequential record number, recomposing CR, EX and S2.
    pub fn set_current_record(&mut self, n: u32)
        requires
            old(self).wf(),
        ensures
            final(self)@ == spec_set_current_record(old(self)@, n),
            final(self).wf(),
    {
        self.mem[0x20] = (n & 0x7F) as u8;
        self.mem[0x0C] = ((n >> 7) & 0x1F) as u8;
        self.mem[0x0E] = #[verifier::truncate] ((n >> 12) as u8);
        proof {
            assert((n & 0x7F) < 256) by (bit_vector);
            assert(((n >> 7) & 0x1F) < 256) by (bit_vector);
        }
    }

    /// The 24-bit random record number from bytes 33-35.
    pub fn random_record(&self) -> (r: u32)
        requires
            self.wf(),
        ensures
            r == spec_random_record(self@),
    {
        (self.mem[0x21] as u32) | ((self.mem[0x22] as u32) << 8) | ((self.mem[0x23] as u32) << 16)
    }

    /// Set the random record number.
    pub fn set_random_record(&mut self, n: u32)
        requires
            old(self).wf(),
        ensures
            final(self)@ == spec_set_random_record(old(self)@, n),
            final(self).wf(),
    {
        self.mem[0x21] = (n & 0xFF) as u8;
        self.mem[0x22] = ((n >> 8) & 0xFF) as u8;
        self.mem[0x23] = ((n >> 16) & 0xFF) as u8;
        proof {
            assert((n & 0xFF) < 256) by (bit_vector);
            assert(((n >> 8) & 0xFF) < 256) by (bit_vector);
            assert(((n >> 16) & 0xFF) < 256) by (bit_vector);
        }
    }

    /// The file handle stored in bytes 16-19, if its signature is intact.
    pub fn fd(&self) -> (r: Option<u32>)
        requires
            self.wf(),
        ensures
            r == spec_fd(self@),
    {
        let n1: u16 = (self.mem[0x10] as u16) | ((self.mem[0x11] as u16) << 8);
        let n2: u16 = (self.mem[0x12] as u16) | ((self.mem[0x13] as u16) << 8);
        if n1 != 0 && (n1 ^ FD_SIGNATURE) == n2 {
            Some(n1 as u32)
        } else {
            None
        }
    }

    /// Store a file handle with its signature.
    pub fn set_fd(&mut self, n: u32)
        requires
            old(self).wf(),
        ensures
            final(self)@ == spec_set_fd(old(self)@, n),
            final(self).wf(),
    {
        let n1: u16 = #[verifier::truncate] (n as u16);
        let n2: u16 = n1 ^ FD_SIGNATURE;
        self.mem[0x10] = #[verifier::truncate] (n1 as u8);
        self.mem[0x11] = (n1 >> 8) as u8;
        self.mem[0x12] = #[verifier::truncate] (n2 as u8);
        self.mem[0x13] = (n2 >> 8) as u8;
        proof {
            assert((n1 >> 8) < 256) by (bit_vector);
            assert((n2 >> 8) < 256) by (bit_vector);
        }
    }

    /// Clear the file handle.
    pub fn clear_fd(&mut self)
        requires
            old(self).wf(),
        ensures
            final(self)@ == spec_clear_fd(old(self)@),
            final(self).wf(),
    {
        self.mem[0x10] = 0;
        self.mem[0x11] = 0;
        self.mem[0x12] = 0;
        self.mem[0x13] = 0;
    }

    /// Initialize for a new file operation: zero EX, S1, S2, RC, CR and the
    /// handle; everything else untouched.
    pub fn init(&mut self)
        requires
            old(self).wf(),
        ensures
            final(self).wf(),
            final(self)@[0x0C] == 0 && final(self)@[0x0D] == 0 && final(self)@[0x0E] == 0,
            final(self)@[0x0F] == 0 && final(self)@[0x20] == 0,
            spec_fd(final(self)@) is None,
            forall|i: int|
                0 <= i < 36 && i != 0x0C && i != 0x0D && i != 0x0E && i != 0x0F && i != 0x20 && !(
                0x10 <= i < 0x14) ==> final(self)@[i] == old(self)@[i],
    {
        self.set_ex(0);
        self.set_s1(0);
        self.set_s2(0);
        self.set_rc(0);
        self.set_cr(0);
        self.clear_fd();
        proof {
            assert((0u8 as u16) | ((0u8 as u16) << 8) == 0) by (bit_vector);
        }
    }

    /// Whether this FCB's name and extension match a wildcard pattern.
    pub fn matches_pattern(&self, pattern_name: &[u8], pattern_ext: &[u8]) -> (r: bool)
        requires
            self.wf(),
        ensures
            r == spec_matches(self@, pattern_name@, pattern_ext@),
    {
        let mut i: usize = 0;
        while i < 8
            invariant
                i <= 8,
                self.wf(),
                forall|j: int|
                    0 <= j < i ==> pat_at(pattern_name@, j) == 63 || pat_at(pattern_name@, j)
                        == self@[1 + j] & 0x7F,
            decreases 8 - i,
        {
            let pc: u8 = if i < pattern_name.len() {
                pattern_name[i] & 0x7F
            } else {
                32
            };
            let fc: u8 = self.mem[1 + i] & 0x7F;
            if pc != 63 && pc != fc {
                proof {
                    assert(pat_at(pattern_name@, i as int) != 63 && pat_at(pattern_name@, i as int)
                        != self@[1 + i as int] & 0x7F);
                }
                return false;
            }
            i += 1;
        }
        let mut i: usize = 0;
        while i < 3
            invariant
                i <= 3,
                self.wf(),
                forall|j: int|
                    0 <= j < 8 ==> pat_at(pattern_name@, j) == 63 || pat_at(pattern_name@, j)
                        == self@[1 + j] & 0x7F,
                forall|j: int|
                    0 <= j < i ==> pat_at(pattern_ext@, j) == 63 || pat_at(pattern_ext@, j)
                        == self@[9 + j] & 0x7F,
            decreases 3 - i,
        {
            let pc: u8 = if i < pattern_ext.len() {
                pattern_ext[i] & 0x7F
            } else {
                32
            };
            let fc: u8 = self.mem[9 + i] & 0x7F;
            if pc != 63 && pc != fc {
                proof {
                    assert(pat_at(pattern_ext@, i as int) != 63 && pat_at(pattern_ext@, i as int)
                        != self@[9 + i as int] & 0x7F);
                }
                return false;
            }
            i += 1;
        }
        true
    }

    /// Blank the FCB: zero drive, spaces in the name and extension fields,
    /// zeroes everywhere else.
    pub fn blank(&mut self)
        requires
            old(self).wf(),
        ensures
            final(self).wf(),
            final(self)@[0] == 0,
            forall|i: int| 1 <= i < 12 ==> final(self)@[i] == 32,
            forall|i: int| 12 <= i < 36 ==> final(self)@[i] == 0,
    {
        self.mem[0] = 0;
        let mut i: usize = 1;
        while i < 12
            invariant
                1 <= i <= 12,
                self.wf(),
                self@[0] == 0,
                forall|j: int| 1 <= j < i ==> self@[j] == 32,
                forall|j: int| i <= j < 36 ==> self@[j] == old(self)@[j],
            decreases 12 - i,
        {
            self.mem[i] = 32;
            i += 1;
        }
        let mut i: usize = 12;
        while i < 36
            invariant
                12 <= i <= 36,
                self.wf(),
                self@[0] == 0,
                forall|j: int| 1 <= j < 12 ==> self@[j] == 32,
                forall|j: int| 12 <= j < i ==> self@[j] == 0,
            decreases 36 - i,
        {
            self.mem[i] = 0;
            i += 1;
        }
    }

    /// Parse a filename string into this FCB. Handles `A:FILE.TXT`,
    /// `FILE.TXT` and `FILE`: the drive prefix goes to byte 0, the name and
    /// extension (split at the last dot) to the padded fields, everything
    /// else is zeroed.
    #[verifier::rlimit(50)]
    pub fn parse_filename(&mut self, filename: &str)
        requires
            old(self).wf(),
        ensures
            final(self).wf(),
            final(self)@[0] == spec_parse_drive(filename@),
            final(self)@.subrange(1, 9) == padded_field(
                vstd::utf8::encode_utf8(spec_parse_name(filename@)),
                8,
            ),
            final(self)@.subrange(9, 12) == padded_field(
                vstd::utf8::encode_utf8(spec_parse_ext(filename@)),
                3,
            ),
            forall|i: int| 12 <= i < 36 ==> final(self)@[i] == 0,
    {
        self.blank();
        let n = filename.unicode_len();
        let mut start: usize = 0;
        if n >= 2 && filename.get_char(1) == ':' {
            let c0 = filename.get_char(0);
            let v = c0 as u32;
            let vu: u32 = if 97 <= v && v <= 122 {
                v - 32
            } else {
                v
            };
            if 65 <= vu && vu <= 90 {
                self.set_drive((vu - 64) as u8);
            }
            start = 2;
        }
        proof {
            assert(self@[0] == spec_parse_drive(filename@));
        }
        let ghost rest = spec_parse_rest(filename@);
        proof {
            if start == 2 {
                assert(rest =~= filename@.skip(2));
            } else {
                assert(rest =~= filename@);
            }
        }
        // find the last dot at or after `start`
        let mut dot: usize = n;
        let mut i: usize = start;
        while i < n
            invariant
                start <= i <= n,
                n == filename@.len(),
                dot == n ==> forall|k: int| start <= k < i ==> filename@[k] != '.',
                dot < n ==> start <= dot < i && filename@[dot as int] == '.',
                dot < n ==> forall|k: int| dot < k < i ==> filename@[k] != '.',
                dot <= n,
            decreases n - i,
        {
            if filename.get_char(i) == '.' {
                dot = i;
            }
            i += 1;
        }
        proof {
            if dot == n {
                assert(forall|k: int|
                    0 <= k < rest.len() ==> rest[k] == filename@[k + start as int]);
                crate::drive_fs::lemma_last_dot_none_pub(rest);
            } else {
                assert(rest[dot as int - start as int] == filename@[dot as int]);
                assert(forall|k: int|
                    (dot as int - start as int) < k && k < rest.len() ==> rest[k] == filename@[
                        k + start as int] && rest[k] != '.');
                crate::drive_fs::lemma_last_dot_at_pub(rest, dot as int - start as int);
            }
        }
        let name_to: usize = if dot == n {
            n
        } else {
            dot
        };
        let name_s = filename.substring_char(start, name_to);
        let ext_s = if dot == n {
            filename.substring_char(n, n)
        } else {
            filename.substring_char(dot + 1, n)
        };
        proof {
            let d = crate::drive_fs::last_dot(rest);
            if dot == n {
                assert(name_s@ =~= rest);
                assert(ext_s@ =~= Seq::<char>::empty());
            } else {
                assert(d == dot as int - start as int);
                assert(name_s@ =~= rest.take(d));
                assert(ext_s@ =~= rest.skip(d + 1));
            }
            assert(name_s@ == spec_parse_name(filename@));
            assert(ext_s@ == spec_parse_ext(filename@));
        }
        self.set_name(name_s);
        self.set_ext(ext_s);
    }
}

/// Read a name or extension field as a string: bytes masked to 7 bits, cut
/// at the first space.
fn read_field(mem: &Vec<u8>, from: usize, to: usize) -> (r: String)
    requires
        from <= to <= mem@.len(),
    ensures
        r@ == field_chars(mem@.subrange(from as int, to as int)),
{
    let mut out: Vec<u8> = Vec::new();
    let mut i: usize = from;
    proof {
        assert(out@.map_values(|b: u8| b as char) =~= Seq::<char>::empty());
    }
    while i < to
        invariant_except_break
            from <= i <= to <= mem@.len(),
            forall|k: int| 0 <= k < out@.len() ==> out@[k] < 0x80,
            field_chars(mem@.subrange(from as int, to as int)) == out@.map_values(
                |b: u8| b as char,
            ) + field_chars(mem@.subrange(i as int, to as int)),
        ensures
            from <= i <= to <= mem@.len(),
            forall|k: int| 0 <= k < out@.len() ==> out@[k] < 0x80,
            field_chars(mem@.subrange(from as int, to as int)) == out@.map_values(
                |b: u8| b as char,
            ) + field_chars(mem@.subrange(i as int, to as int)),
            i == to || mem@[i as int] & 0x7F == 32,
        decreases to - i,
    {
        let ghost rest = mem@.subrange(i as int, to as int);
        let b = mem[i] & 0x7F;
        proof {
            let ghost raw = mem@[i as int];
            assert(raw & 0x7F < 0x80) by (bit_vector);
        }
        if b == 32 {
            break ;
        }
        let ghost pre_out = out@;
        out.push(b);
        proof {
            assert(rest.first() == mem@[i as int]);
            assert(rest.drop_first() =~= mem@.subrange(i as int + 1, to as int));
            assert(field_chars(rest) == seq![masked_char(mem@[i as int])] + field_chars(
                mem@.subrange(i as int + 1, to as int),
            ));
            assert(out@.map_values(|x: u8| x as char) =~= pre_out.map_values(|x: u8| x as char)
                + seq![b as char]);
            assert(b as char == masked_char(mem@[i as int]));
            assert(pre_out.map_values(|x: u8| x as char) + seq![masked_char(mem@[i as int])]
                + field_chars(mem@.subrange(i as int + 1, to as int)) =~= pre_out.map_values(
                |x: u8| x as char,
            ) + (seq![masked_char(mem@[i as int])] + field_chars(
                mem@.subrange(i as int + 1, to as int),
            )));
        }
        i += 1;
    }
    proof {
        let rest = mem@.subrange(i as int, to as int);
        if i == to {
            assert(rest =~= Seq::<u8>::empty());
            assert(field_chars(rest) =~= Seq::<char>::empty());
        } else {
            assert(rest.first() == mem@[i as int]);
            assert(field_chars(rest) =~= Seq::<char>::empty());
        }
        assert(out@.map_values(|b: u8| b as char) + Seq::<char>::empty() =~= out@.map_values(
            |b: u8| b as char,
        ));
    }
    string_from_ascii(out)
}

/// Write `bytes` into the field at `[at, at + width)`: uppercased,
/// space-padded.
fn write_field(mem: &mut Vec<u8>, bytes: &Vec<u8>, at: usize, width: usize)
    requires
        at + width <= old(mem)@.len(),
        at + width <= 36,
    ensures
        final(mem)@.len() == old(mem)@.len(),
        final(mem)@.subrange(at as int, at as int + width as int) == padded_field(
            bytes@,
            width as nat,
        ),
        forall|i: int|
            0 <= i < old(mem)@.len() && !(at <= i < at + width) ==> final(mem)@[i] == old(
                mem,
            )@[i],
{
    let mut i: usize = 0;
    while i < width
        invariant
            i <= width,
            at + width <= mem@.len(),
            at + width <= 36,
            mem@.len() == old(mem)@.len(),
            forall|j: int|
                0 <= j < i ==> mem@[at + j] == padded_field(bytes@, width as nat)[j],
            forall|j: int|
                0 <= j < old(mem)@.len() && !(at <= j < at + i) ==> mem@[j] == old(mem)@[j],
        decreases width - i,
    {
        let b: u8 = if i < bytes.len() {
            let raw = bytes[i];
            if 97 <= raw && raw <= 122 {
                raw - 32
            } else {
                raw
            }
        } else {
            32
        };
        mem[at + i] = b;
        i += 1;
    }
    proof {
        assert(mem@.subrange(at as int, at as int + width as int) =~= padded_field(
            bytes@,
            width as nat,
        ));
    }
}

/// Record number codec law: for every `n` below 2^20, decomposing into
/// CR, EX and S2 and recomposing yields `n` again; CR stays below 128 and
/// EX below 32.
pub proof fn lemma_record_roundtrip(m: Seq<u8>, n: u32)
    requires
        m.len() == 36,
        n < 0x100000,
    ensures
        spec_current_record(spec_set_current_record(m, n)) == n,
        spec_set_current_record(m, n)[0x20] < 128,
        spec_set_current_record(m, n)[0x0C] < 32,
{
    let m2 = spec_set_current_record(m, n);
    assert(m2[0x20] == (n & 0x7F) as u8);
    assert(m2[0x0C] == ((n >> 7) & 0x1F) as u8);
    assert(m2[0x0E] == (n >> 12) as u8);
    assert((((n & 0x7F) as u8) as u32) | ((((n >> 7) & 0x1F) as u8) as u32) << 7 | (((
    n >> 12) as u8) as u32) << 12 == n) by (bit_vector)
        requires
            n < 0x100000,
    ;
    assert(((n & 0x7F) as u8) < 128) by (bit_vector);
    assert((((n >> 7) & 0x1F) as u8) < 32) by (bit_vector);
}

/// Handle signature law: storing a nonzero 16-bit handle makes `fd()` decode
/// exactly that handle; clearing makes it decode nothing; a handle whose low
/// 16 bits are zero decodes nothing.
pub proof fn lemma_fd_roundtrip(m: Seq<u8>, h: u32)
    requires
        m.len() == 36,
    ensures
        1 <= h < 0x10000 ==> spec_fd(spec_set_fd(m, h)) == Some(h),
        h as u16 == 0 ==> spec_fd(spec_set_fd(m, h)) is None,
        spec_fd(spec_clear_fd(m)) is None,
{
    let m2 = spec_set_fd(m, h);
    let n1 = h as u16;
    let n2 = n1 ^ FD_SIGNATURE;
    assert(m2[0x10] == n1 as u8 && m2[0x11] == (n1 >> 8) as u8 && m2[0x12] == n2 as u8
        && m2[0x13] == (n2 >> 8) as u8);
    let r1 = (m2[0x10] as u16) | ((m2[0x11] as u16) << 8);
    let r2 = (m2[0x12] as u16) | ((m2[0x13] as u16) << 8);
    assert(((n1 as u8) as u16) | ((((n1 >> 8) as u8) as u16) << 8) == n1) by (bit_vector);
    assert(((n2 as u8) as u16) | ((((n2 >> 8) as u8) as u16) << 8) == n2) by (bit_vector);
    assert(r1 == n1 && r2 == n2);
    if 1 <= h && h < 0x10000 {
        assert(h as u16 != 0 && (h as u16) as u32 == h) by (bit_vector)
            requires
                1 <= h < 0x10000,
        ;
        assert((n1 ^ FD_SIGNATURE) == n2);
        assert(spec_fd(m2) == Some(h));
    }
    if h as u16 == 0 {
        assert(spec_fd(m2) is None);
    }
    let m3 = spec_clear_fd(m);
    assert(m3[0x10] == 0 && m3[0x11] == 0);
    assert((0u8 as u16) | ((0u8 as u16) << 8) == 0) by (bit_vector);
}

} // verus!
