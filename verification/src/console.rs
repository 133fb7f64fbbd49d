//! The console that the firmware offers: bytes go out one at a time, and
//! bytes that were typed come in one at a time.

use vstd::prelude::*;

verus! {

/// The output side of the console: all bytes written so far, in order, and
/// the error code with which the firmware answers a write, which is 0 while
/// it takes bytes.
#[derive(Debug)]
pub struct Writer {
    pub written: Vec<u8>,
    pub status: i32,
}

impl Writer {
    /// A console on which nothing was written, and which takes bytes.
    pub fn new() -> (w: Writer)
        ensures
            w.written@ == Seq::<u8>::empty(),
            w.status == 0,
    {
        Writer { written: Vec::new(), status: 0 }
    }

    /// Writes the byte `c`, unless the firmware refuses it: then nothing is
    /// written and the error code of the firmware is returned.
    pub fn write_byte(&mut self, c: u8) -> (r: Result<(), i32>)
        ensures
            final(self).status == old(self).status,
            old(self).status == 0 ==> {
                &&& r is Ok
                &&& final(self).written@ == old(self).written@.push(c)
            },
            old(self).status != 0 ==> {
                &&& r == Err::<(), i32>(old(self).status)
                &&& final(self).written@ == old(self).written@
            },
    {
        if self.status == 0 {
            self.written.push(c);
            Ok(())
        } else {
            Err(self.status)
        }
    }
}

/// The console: its output side, and the bytes that were typed and not read
/// yet, which are those of `typed` from index `read` on.
#[derive(Debug)]
pub struct Console {
    pub writer: Writer,
    pub typed: Vec<u8>,
    pub read: usize,
}

impl Console {
    /// The index of the next byte to read is not past the end of what was typed.
    pub open spec fn wf(&self) -> bool {
        self.read <= self.typed@.len()
    }

    /// The bytes that were typed and not read yet.
    pub open spec fn pending(&self) -> Seq<u8> {
        self.typed@.subrange(self.read as int, self.typed@.len() as int)
    }

    /// A console with no output and no input.
    pub fn new() -> (c: Console)
        ensures
            c.wf(),
            c.writer.written@ == Seq::<u8>::empty(),
            c.writer.status == 0,
            c.pending() == Seq::<u8>::empty(),
    {
        Console { writer: Writer::new(), typed: Vec::new(), read: 0 }
    }

    /// Records that the byte `c` was typed.
    pub fn type_byte(&mut self, c: u8)
        requires
            old(self).wf(),
        ensures
            final(self).wf(),
            final(self).pending() == old(self).pending().push(c),
            final(self).writer == old(self).writer,
    {
        self.typed.push(c);
    }

    /// Whether a byte can be read.
    pub fn has_input(&self) -> (r: bool)
        requires
            self.wf(),
        ensures
            r == (self.pending().len() > 0),
    {
        self.read < self.typed.len()
    }
}

/// Reads a byte from the console: the oldest byte that was typed and not read
/// yet, or -1 if there is none.
pub fn read_byte(console: &mut Console) -> (r: i64)
    requires
        old(console).wf(),
    ensures
        final(console).wf(),
        final(console).writer == old(console).writer,
        old(console).pending().len() == 0 ==> {
            &&& r == -1
            &&& final(console).pending() == old(console).pending()
        },
        old(console).pending().len() > 0 ==> {
            &&& r == old(console).pending()[0]
            &&& final(console).pending() == old(console).pending().drop_first()
        },
{
    if console.read < console.typed.len() {
        let b = console.typed[console.read];
        console.read += 1;
        b as i64
    } else {
        -1
    }
}

} // verus!
