//! Writer of events in HepMC 2 format.
use vstd::prelude::*;

use crate::io::EventRecord;
use crate::text::push_all;
use vstd::utf8::encode_utf8;

verus! {

/// Write events in HepMC 2 format. The writer collects the bytes of the
/// records it is given, each followed by a line feed; the program hands
/// them on to the output file.
pub struct Writer {
    out: Vec<u8>,
}

impl Writer {
    /// The bytes written and not yet taken.
    pub closed spec fn written(&self) -> Seq<u8> {
        self.out@
    }

    /// A writer that has written nothing.
    pub fn new() -> (r: Self)
        ensures
            r.written() == Seq::<u8>::empty(),
    {
        Writer { out: Vec::new() }
    }

    /// Write a HepMC record; records of other formats cannot be written.
    pub fn write(&mut self, e: &EventRecord)
        requires
            e is HepMC,
        ensures
            match e {
                EventRecord::HepMC(record) => final(self).written() == old(self).written()
                    + encode_utf8(record@) + seq![10u8],
                _ => false,
            },
    {
        match e {
            EventRecord::HepMC(record) => {
                push_all(&mut self.out, record.as_str().as_bytes());
                self.out.push(10u8);
            },
            _ => {},
        }
    }

    /// Take the bytes written so far.
    pub fn take_output(&mut self) -> (r: Vec<u8>)
        ensures
            r@ == old(self).written(),
            final(self).written() == Seq::<u8>::empty(),
    {
        let mut done: Vec<u8> = Vec::new();
        std::mem::swap(&mut done, &mut self.out);
        done
    }
}

} // verus!
