use crate::cid::Cid;
use crate::error::CarSplitterError;
use crate::error::ErrorKind;
use crate::error::IoFailure;
use crate::node::Node;
use crate::node::NodeValue;
use crate::node::block_decoding;
use crate::node::decode_block;
use crate::source::ByteSource;
use crate::source::bytes_from;
use vstd::prelude::*;

verus! {

/// Where one block stands in the source: its identifier, and the offset and
/// the length of its payload. The payload itself stays in the source.
#[derive(Debug)]
pub struct Section {
    pub cid: Cid,
    pub pos: u64,
    pub len: usize,
}

/// What a [`Section`] stands for.
pub struct SectionValue {
    pub cid: Seq<u8>,
    pub pos: u64,
    pub len: usize,
}

impl View for Section {
    type V = SectionValue;

    open spec fn view(&self) -> SectionValue {
        SectionValue { cid: self.cid@, pos: self.pos, len: self.len }
    }
}

impl SectionValue {
    /// The payload of the section in `bytes`; `None` where `bytes` do not
    /// hold all of it.
    pub open spec fn data(self, bytes: Seq<u8>) -> Option<Seq<u8>> {
        let rest = bytes_from(bytes, self.pos as nat);
        if self.len <= rest.len() {
            Some(rest.subrange(0, self.len as int))
        } else {
            None
        }
    }

    /// The decoded payload of the section in `bytes`, or the kind of the
    /// failure: an I/O failure where `bytes` do not hold the payload, a
    /// parsing failure where the codec refuses it.
    pub open spec fn node(self, bytes: Seq<u8>) -> Result<NodeValue, ErrorKind> {
        match self.data(bytes) {
            None => Err(ErrorKind::Io(IoFailure::UnexpectedEof)),
            Some(data) => match block_decoding(self.cid, data) {
                None => Err(ErrorKind::Parsing),
                Some(node) => Ok(node),
            },
        }
    }
}

impl Section {
    /// The section of the block `cid` whose payload of `len` bytes starts at
    /// `pos`.
    pub fn new(cid: Cid, pos: u64, len: usize) -> (section: Section)
        ensures
            section.cid == cid,
            section.pos == pos,
            section.len == len,
    {
        Section { cid, pos, len }
    }

    /// Reads the payload from `seeker`.
    pub fn read_data(&self, seeker: &mut ByteSource) -> (read: Result<Vec<u8>, CarSplitterError>)
        ensures
            final(seeker).bytes == old(seeker).bytes,
            match read {
                Ok(data) => self@.data(old(seeker).bytes@) == Some(data@) && final(seeker).pos
                    == self.pos + self.len,
                Err(e) => self@.data(old(seeker).bytes@) is None && e.kind() == ErrorKind::Io(
                    IoFailure::UnexpectedEof,
                ) && final(seeker).pos == self.pos,
            },
    {
        seeker.seek(self.pos);
        match seeker.read_exact(self.len) {
            Ok(data) => Ok(data),
            Err(failure) => Err(CarSplitterError::Io(failure)),
        }
    }

    /// Reads the payload from `seeker` and decodes it with the codec that the
    /// identifier declares.
    pub fn ipld(&self, seeker: &mut ByteSource) -> (decoded: Result<Node, CarSplitterError>)
        ensures
            final(seeker).bytes == old(seeker).bytes,
            final(seeker).pos == self.pos + (if self@.data(old(seeker).bytes@) is Some {
                self.len as int
            } else {
                0
            }),
            match decoded {
                Ok(node) => self@.node(old(seeker).bytes@) == Ok::<NodeValue, ErrorKind>(node@),
                Err(e) => self@.node(old(seeker).bytes@) == Err::<NodeValue, ErrorKind>(e.kind()),
            },
    {
        let data = match self.read_data(seeker) {
            Ok(data) => data,
            Err(e) => {
                return Err(e);
            },
        };
        decode_block(&self.cid, data.as_slice())
    }

    /// The identifier of the block.
    pub fn cid(&self) -> (cid: Cid)
        ensures
            cid@ == self.cid@,
    {
        self.cid.clone()
    }

    /// The offset of the payload in the source.
    pub fn pos(&self) -> (pos: u64)
        ensures
            pos == self.pos,
    {
        self.pos
    }

    /// The length of the payload.
    pub fn len(&self) -> (len: usize)
        ensures
            len == self.len,
    {
        self.len
    }
}

} // verus!
