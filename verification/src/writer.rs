//! Buffered ACMI line writer over an in-memory text buffer; the caller
//! hands the finished buffer to its sink, so the writer itself never
//! performs I/O.

use vstd::prelude::*;
use vstd::string::StringExecFns;
use crate::codec::{encode_record, encode_record_string};
use crate::record::Record;
use crate::text::push_char;

verus! {

/// The two fixed header lines that open a recording file.
pub open spec fn file_header() -> Seq<char> {
    "FileType=text/acmi/tacview\n"@ + "FileVersion=2.2\n"@
}

/// Accumulates newline-terminated record lines in a text buffer.
pub struct Writer {
    pub buf: String,
}

impl View for Writer {
    type V = Seq<char>;

    open spec fn view(&self) -> Seq<char> {
        self.buf@
    }
}

impl Writer {
    /// Writer for file output: appends the fixed two-line header before
    /// any record.
    pub fn new(wr: String) -> (w: Writer)
        ensures
            w@ == wr@ + file_header(),
    {
        let mut buf = wr;
        buf.append("FileType=text/acmi/tacview\n");
        buf.append("FileVersion=2.2\n");
        let w = Writer { buf };
        proof {
            assert(w@ =~= wr@ + file_header());
        }
        w
    }

    /// Writer for a live connection: emits no header.
    pub fn new_empty(wr: String) -> (w: Writer)
        ensures
            w@ == wr@,
    {
        Writer { buf: wr }
    }

    /// Appends exactly one newline-terminated line holding the record.
    pub fn write(&mut self, record: &Record)
        requires
            record@.well_formed(),
        ensures
            final(self)@ == old(self)@ + encode_record(record@) + seq!['\n'],
    {
        let line = encode_record_string(record);
        self.buf.append(line.as_str());
        push_char(&mut self.buf, '\n');
        proof {
            assert(final(self)@ =~= old(self)@ + encode_record(record@) + seq!['\n']);
        }
    }

    /// Hands back the accumulated buffer.
    pub fn into_inner(self) -> (r: String)
        ensures
            r@ == self@,
    {
        self.buf
    }
}

} // verus!
