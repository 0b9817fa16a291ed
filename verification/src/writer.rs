use crate::cid::Cid;
use crate::error::CarSplitterError;
use crate::error::ErrorKind;
use crate::header::CarHeader;
use crate::varint::lemma_varint_bytes_nonempty;
use crate::varint::varint_bytes;
use crate::varint::write_varint;
use vstd::prelude::*;

verus! {

/// `bytes` behind their length.
pub open spec fn framed(bytes: Seq<u8>) -> Seq<u8> {
    varint_bytes(bytes.len()) + bytes
}

/// One section: the identifier and the payload behind the length of both.
pub open spec fn section_bytes(cid: Seq<u8>, data: Seq<u8>) -> Seq<u8> {
    varint_bytes(cid.len() + data.len()) + cid + data
}

/// Whether the length of a section of `cid` and `data` can be written down.
pub open spec fn section_fits(cid: Seq<u8>, data: Seq<u8>) -> bool {
    cid.len() + data.len() <= usize::MAX
}

/// A section is longer than its payload.
pub proof fn lemma_section_longer_than_payload(cid: Seq<u8>, data: Seq<u8>)
    ensures
        section_bytes(cid, data).len() == varint_bytes(cid.len() + data.len()).len() + cid.len()
            + data.len(),
        section_bytes(cid, data).len() > data.len(),
{
    lemma_varint_bytes_nonempty(cid.len() + data.len());
}

/// An archive under construction: the bytes written so far, and the header
/// that belongs in front of them.
#[derive(Debug)]
pub struct CarWriter {
    pub inner: Vec<u8>,
    pub header: CarHeader,
}

impl View for CarWriter {
    type V = Seq<u8>;

    open spec fn view(&self) -> Seq<u8> {
        self.inner@
    }
}

impl CarWriter {
    /// A writer for `header` that has written nothing yet.
    pub fn new(header: CarHeader) -> (writer: CarWriter)
        ensures
            writer@ == Seq::<u8>::empty(),
            writer.header == header,
    {
        CarWriter { inner: Vec::new(), header }
    }

    /// Writes the encoded header behind its length. Writes nothing where the
    /// codec refuses the header.
    pub fn write_header(&mut self) -> (written: Result<(), CarSplitterError>)
        ensures
            final(self).header == old(self).header,
            match written {
                Ok(_) => {
                    &&& old(self).header@.encoding() matches Some(head)
                    &&& final(self)@ == old(self)@ + framed(head)
                },
                Err(e) => {
                    &&& old(self).header@.encoding() is None
                    &&& e.kind() == ErrorKind::Parsing
                    &&& final(self)@ == old(self)@
                },
            },
    {
        let head = match self.header.encode() {
            Ok(head) => head,
            Err(e) => {
                return Err(e);
            },
        };
        write_varint(&mut self.inner, head.len());
        self.inner.extend_from_slice(head.as_slice());
        assert(self@ =~= old(self)@ + framed(head@));
        Ok(())
    }

    /// Writes one section. Writes nothing, and reports the payload's length,
    /// where the section's length does not fit in `usize`.
    pub fn write(&mut self, cid: &Cid, data: &[u8]) -> (written: Result<(), CarSplitterError>)
        ensures
            final(self).header == old(self).header,
            match written {
                Ok(_) => {
                    &&& section_fits(cid@, data@)
                    &&& final(self)@ == old(self)@ + section_bytes(cid@, data@)
                },
                Err(e) => {
                    &&& !section_fits(cid@, data@)
                    &&& e == CarSplitterError::TooLargeSection(data.len())
                    &&& final(self)@ == old(self)@
                },
            },
    {
        let id = cid.as_bytes();
        let sec_len = match data.len().checked_add(id.len()) {
            Some(sec_len) => sec_len,
            None => {
                return Err(CarSplitterError::TooLargeSection(data.len()));
            },
        };
        write_varint(&mut self.inner, sec_len);
        self.inner.extend_from_slice(id);
        self.inner.extend_from_slice(data);
        assert(self@ =~= old(self)@ + section_bytes(cid@, data@));
        Ok(())
    }

    /// The number of bytes written and not yet flushed.
    pub fn len(&self) -> (len: usize)
        ensures
            len == self@.len(),
    {
        self.inner.len()
    }

    /// Whether there is nothing to flush.
    pub fn is_empty(&self) -> (empty: bool)
        ensures
            empty == (self@.len() == 0),
    {
        self.inner.len() == 0
    }

    /// Hands out the bytes written so far and leaves the writer empty.
    pub fn flush(&mut self) -> (bytes: Vec<u8>)
        ensures
            bytes@ == old(self)@,
            final(self)@ == Seq::<u8>::empty(),
            final(self).header == old(self).header,
    {
        let mut bytes: Vec<u8> = Vec::new();
        std::mem::swap(&mut self.inner, &mut bytes);
        bytes
    }
}

} // verus!
