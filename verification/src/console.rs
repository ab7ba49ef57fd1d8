//! Console I/O abstraction.
//!
//! `CpmConsole` is the character-level contract the engine drives: an output
//! stream, a list (printer) stream, and a queue of pending input keys. A
//! host terminal implements it outside the engine; `HeadlessConsole` is the
//! in-memory implementation used for tests and batch runs.

use vstd::prelude::*;
use vstd::slice::slice_to_vec;
use vstd::string::{StrSliceExecFns, StringSliceAdditionalSpecFns};

verus! {

/// Console interface for CP/M character I/O.
///
/// `out()` models everything written so far, `lst()` the list device, and
/// `inp()` the keys that will be delivered, in order. A blocking read on an
/// exhausted queue yields 0 (the convention for a closed input source).
pub trait CpmConsole: Sized {
    open spec fn out(&self) -> Seq<u8> {
        Seq::empty()
    }

    open spec fn lst(&self) -> Seq<u8> {
        Seq::empty()
    }

    open spec fn inp(&self) -> Seq<u8> {
        Seq::empty()
    }

    /// Write one character to console output.
    fn write(&mut self, ch: u8)
        ensures
            final(self).out() == old(self).out().push(ch),
            final(self).lst() == old(self).lst(),
            final(self).inp() == old(self).inp(),
    ;

    /// Write one character to the list (printer) device.
    fn print(&mut self, ch: u8)
        ensures
            final(self).out() == old(self).out(),
            final(self).lst() == old(self).lst().push(ch),
            final(self).inp() == old(self).inp(),
    ;

    /// Whether a key is pending (non-blocking).
    fn has_key(&self) -> (r: bool)
        ensures
            r == (self.inp().len() > 0),
    ;

    /// The next pending key, or None (non-blocking).
    fn get_key(&mut self) -> (r: Option<u8>)
        ensures
            final(self).out() == old(self).out(),
            final(self).lst() == old(self).lst(),
            old(self).inp().len() > 0 ==> r == Some(old(self).inp()[0]) && final(self).inp()
                == old(self).inp().drop_first(),
            old(self).inp().len() == 0 ==> r is None && final(self).inp() == old(self).inp(),
    ;

    /// Wait for the next key; yields 0 once the input source is exhausted.
    fn wait_for_key(&mut self) -> (r: u8)
        ensures
            final(self).out() == old(self).out(),
            final(self).lst() == old(self).lst(),
            old(self).inp().len() > 0 ==> r == old(self).inp()[0] && final(self).inp() == old(
                self,
            ).inp().drop_first(),
            old(self).inp().len() == 0 ==> r == 0 && final(self).inp() == old(self).inp(),
    ;
}

/// Headless console: captures output, serves queued input.
pub struct HeadlessConsole {
    output: Vec<u8>,
    printed: Vec<u8>,
    input: Vec<u8>,
}

impl HeadlessConsole {
    pub fn new() -> (r: Self)
        ensures
            r.out() == Seq::<u8>::empty(),
            r.lst() == Seq::<u8>::empty(),
            r.inp() == Seq::<u8>::empty(),
    {
        HeadlessConsole { output: Vec::new(), printed: Vec::new(), input: Vec::new() }
    }

    /// Create with pre-queued input.
    pub fn with_input(input: &[u8]) -> (r: Self)
        ensures
            r.out() == Seq::<u8>::empty(),
            r.lst() == Seq::<u8>::empty(),
            r.inp() == input@,
    {
        HeadlessConsole { output: Vec::new(), printed: Vec::new(), input: slice_to_vec(input) }
    }

    /// Queue input bytes.
    pub fn queue_input(&mut self, input: &[u8])
        ensures
            final(self).out() == old(self).out(),
            final(self).lst() == old(self).lst(),
            final(self).inp() == old(self).inp() + input@,
    {
        let mut i: usize = 0;
        while i < input.len()
            invariant
                i <= input@.len(),
                self.output@ == old(self).output@,
                self.printed@ == old(self).printed@,
                self.input@ == old(self).input@ + input@.take(i as int),
            decreases input@.len() - i,
        {
            self.input.push(input[i]);
            proof {
                assert(old(self).input@ + input@.take(i as int + 1) =~= (old(self).input@
                    + input@.take(i as int)).push(input@[i as int]));
            }
            i += 1;
        }
        proof {
            assert(input@.take(input@.len() as int) =~= input@);
        }
    }

    /// Queue a string's bytes as input.
    pub fn queue_string(&mut self, s: &str)
        ensures
            final(self).out() == old(self).out(),
            final(self).lst() == old(self).lst(),
            final(self).inp() == old(self).inp() + s.spec_bytes(),
    {
        let bytes = s.as_bytes_vec();
        self.queue_input(bytes.as_slice());
    }

    /// Everything written to console output so far.
    pub fn output(&self) -> (r: &Vec<u8>)
        ensures
            r@ == self.out(),
    {
        &self.output
    }

    /// The output as a string; non-ASCII bytes come back as themselves in
    /// the character sequence only when the output was ASCII.
    pub fn output_string(&self) -> (r: String)
        ensures
            (forall|i: int| 0 <= i < self.out().len() ==> self.out()[i] < 0x80) ==> r@
                == self.out().map_values(|b: u8| b as char),
    {
        lossy_string(&self.output)
    }

    /// Clear the captured output.
    pub fn clear_output(&mut self)
        ensures
            final(self).out() == Seq::<u8>::empty(),
            final(self).lst() == old(self).lst(),
            final(self).inp() == old(self).inp(),
    {
        self.output.clear();
    }
}

/// The bytes a host terminal emits for one console character: backspace
/// becomes backspace-space-backspace (erase); carriage return, line feed,
/// bell and every other byte pass through as themselves.
pub open spec fn spec_console_bytes(ch: u8) -> Seq<u8> {
    if ch == 0x08 {
        seq![0x08u8, 0x20u8, 0x08u8]
    } else {
        seq![ch]
    }
}

/// The host-terminal byte sequence for one console character.
pub fn console_bytes(ch: u8) -> (r: Vec<u8>)
    ensures
        r@ == spec_console_bytes(ch),
{
    let mut r: Vec<u8> = Vec::new();
    if ch == 0x08 {
        r.push(0x08);
        r.push(0x20);
        r.push(0x08);
        proof {
            assert(r@ =~= spec_console_bytes(ch));
        }
    } else {
        r.push(ch);
        proof {
            assert(r@ =~= spec_console_bytes(ch));
        }
    }
    r
}

/// Relies on String::from_utf8_lossy: ASCII bytes decode to exactly their
/// characters.
#[verifier::external_body]
fn lossy_string(bytes: &Vec<u8>) -> (r: String)
    ensures
        (forall|i: int| 0 <= i < bytes@.len() ==> bytes@[i] < 0x80) ==> r@ == bytes@.map_values(
            |b: u8| b as char,
        ),
{
    String::from_utf8_lossy(bytes.as_slice()).into_owned()
}

impl CpmConsole for HeadlessConsole {
    closed spec fn out(&self) -> Seq<u8> {
        self.output@
    }

    closed spec fn lst(&self) -> Seq<u8> {
        self.printed@
    }

    closed spec fn inp(&self) -> Seq<u8> {
        self.input@
    }

    fn write(&mut self, ch: u8) {
        self.output.push(ch);
    }

    fn print(&mut self, ch: u8) {
        self.printed.push(ch);
    }

    fn has_key(&self) -> (r: bool) {
        self.input.len() > 0
    }

    fn get_key(&mut self) -> (r: Option<u8>) {
        if self.input.len() > 0 {
            let k = self.input.remove(0);
            proof {
                assert(self.input@ =~= old(self).input@.drop_first());
            }
            Some(k)
        } else {
            None
        }
    }

    fn wait_for_key(&mut self) -> (r: u8) {
        if self.input.len() > 0 {
            let k = self.input.remove(0);
            proof {
                assert(self.input@ =~= old(self).input@.drop_first());
            }
            k
        } else {
            0
        }
    }
}

} // verus!
