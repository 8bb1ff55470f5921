//! Cursors that know their byte offset: a writer that appends to a segment's
//! bytes and a reader that decodes records out of them.
use crate::codec::{decode_at, decode_command, encode, encode_command, fits};
use crate::enums::WriteCommand;
use vstd::prelude::*;

verus! {

/// An append-only byte sink that reports the offset after each write.
pub struct BufWriterWithPos {
    writer: Vec<u8>,
    pos: u64,
}

impl View for BufWriterWithPos {
    type V = Seq<u8>;

    /// The bytes written so far, those the sink held when opened included.
    closed spec fn view(&self) -> Seq<u8> {
        self.writer@
    }
}

impl BufWriterWithPos {
    /// The recorded offset is the number of bytes held.
    pub closed spec fn wf(&self) -> bool {
        &&& self.pos == self.writer@.len()
        &&& self.writer@.len() <= usize::MAX
    }

    /// The offset of the next write.
    pub closed spec fn spec_pos(&self) -> nat {
        self.pos as nat
    }

    /// Opens a cursor in append mode on bytes already held: it starts at their end.
    pub fn new(inner: Vec<u8>) -> (r: Self)
        ensures
            r@ == inner@,
            r.spec_pos() == inner@.len(),
            r.wf(),
            r@.len() <= usize::MAX,
    {
        let pos = inner.len() as u64;
        BufWriterWithPos { writer: inner, pos }
    }

    /// The offset of the next write, which is the number of bytes held.
    pub fn pos(&self) -> (r: u64)
        requires
            self.wf(),
        ensures
            r == self.spec_pos(),
            r == self@.len(),
    {
        self.pos
    }

    /// Appends `buf` and returns how many bytes were written (all of them).
    pub fn write(&mut self, buf: &[u8]) -> (r: usize)
        requires
            old(self).wf(),
        ensures
            final(self).wf(),
            final(self)@ == old(self)@ + buf@,
            final(self)@.len() <= usize::MAX,
            r == buf@.len(),
            final(self).spec_pos() == old(self).spec_pos() + buf@.len(),
    {
        let mut i: usize = 0;
        while i < buf.len()
            invariant
                0 <= i <= buf@.len(),
                self.writer@ == old(self)@ + buf@.subrange(0, i as int),
            decreases buf@.len() - i,
        {
            self.writer.push(buf[i]);
            i = i + 1;
            assert(self.writer@ =~= old(self)@ + buf@.subrange(0, i as int));
        }
        assert(buf@.subrange(0, i as int) =~= buf@);
        self.pos = self.writer.len() as u64;
        i
    }

    /// The bytes written so far.
    pub fn get_ref(&self) -> (r: &Vec<u8>)
        ensures
            r@ == self@,
    {
        &self.writer
    }
}

/// Appends the encoding of `command` and returns the offsets where the record
/// begins and ends.
pub fn write_command(writer: &mut BufWriterWithPos, command: &WriteCommand) -> (r: (u64, u64))
    requires
        old(writer).wf(),
    ensures
        final(writer).wf(),
        final(writer)@ == old(writer)@ + encode(command@),
        final(writer)@.len() <= usize::MAX,
        fits(command@),
        r.0 == old(writer)@.len(),
        r.1 == final(writer)@.len(),
{
    let begin_pos = writer.pos();
    let bytes = encode_command(command);
    writer.write(bytes.as_slice());
    let end_pos = writer.pos();
    (begin_pos, end_pos)
}

/// A cursor over a segment's bytes that decodes one record at a time.
pub struct BufReaderWithPos<'a> {
    reader: &'a [u8],
    pos: usize,
}

impl<'a> BufReaderWithPos<'a> {
    /// The bytes read from.
    pub closed spec fn bytes(&self) -> Seq<u8> {
        self.reader@
    }

    /// The offset of the next read.
    pub closed spec fn spec_pos(&self) -> nat {
        self.pos as nat
    }

    /// Opens a cursor on `inner` at offset `start`.
    pub fn new(inner: &'a [u8], start: usize) -> (r: Self)
        ensures
            r.bytes() == inner@,
            r.spec_pos() == start,
    {
        BufReaderWithPos { reader: inner, pos: start }
    }

    /// The offset of the next read.
    pub fn pos(&self) -> (r: usize)
        ensures
            r == self.spec_pos(),
    {
        self.pos
    }

    /// Moves the cursor to offset `pos` and returns it.
    pub fn seek(&mut self, pos: usize) -> (r: usize)
        ensures
            final(self).bytes() == old(self).bytes(),
            final(self).spec_pos() == pos,
            r == pos,
    {
        self.pos = pos;
        pos
    }

    /// Decodes the record at the cursor and moves past it. `None`, with the
    /// cursor left where it was, where no whole record starts there.
    pub fn read_command(&mut self) -> (r: Option<WriteCommand>)
        ensures
            final(self).bytes() == old(self).bytes(),
            match r {
                Some(c) => decode_at(old(self).bytes(), old(self).spec_pos() as int) == Some(
                    (c@, final(self).spec_pos() as int),
                ),
                None => decode_at(old(self).bytes(), old(self).spec_pos() as int) is None
                    && final(self).spec_pos() == old(self).spec_pos(),
            },
    {
        match decode_command(self.reader, self.pos) {
            Some((c, end)) => {
                self.pos = end;
                Some(c)
            },
            None => None,
        }
    }
}

} // verus!
