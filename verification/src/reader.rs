use crate::cid::Cid;
use crate::cid::cid_at;
use crate::cid::read_cid;
use crate::error::CarSplitterError;
use crate::error::ErrorKind;
use crate::error::IoFailure;
use crate::header::CarHeader;
use crate::header::HeaderValue;
use crate::node::Node;
use crate::node::NodeValue;
use crate::section::Section;
use crate::section::SectionValue;
use crate::source::ByteSource;
use crate::source::bytes_from;
use crate::varint::VarintRead;
use crate::varint::lemma_varint_bytes_nonempty;
use crate::varint::read_varint;
use crate::varint::varint_bytes;
use crate::writer::framed;
use crate::varint::varint_at;
use vstd::prelude::*;

verus! {

/// Largest length that a length prefix may declare: 32 MiB.
pub const MAX_ALLOWED_SECTION_SIZE: usize = 33554432;

/// What reading one length-prefixed block of `bytes` at `pos` gives: nothing
/// where no byte is left; else the block and the position behind it, or the
/// failure. Bytes that end inside the length, and a length that is none, are
/// I/O failures. A length above the limit is refused before anything is
/// read; a block that the bytes do not hold in full is an I/O failure.
pub open spec fn block_at(bytes: Seq<u8>, pos: nat) -> Result<Option<(Seq<u8>, nat)>, ErrorKind> {
    let rest = bytes_from(bytes, pos);
    if rest.len() == 0 {
        Ok(None)
    } else {
        match varint_at(rest) {
            VarintRead::Eof => Err(ErrorKind::Io(IoFailure::UnexpectedEof)),
            VarintRead::Invalid => Err(ErrorKind::Io(IoFailure::InvalidData)),
            VarintRead::Value { value, consumed } => {
                if value > MAX_ALLOWED_SECTION_SIZE {
                    Err(ErrorKind::TooLargeSection(value))
                } else if consumed + value > rest.len() {
                    Err(ErrorKind::Io(IoFailure::UnexpectedEof))
                } else {
                    Ok(
                        Some(
                            (
                                rest.subrange(consumed as int, consumed + value),
                                (pos + consumed + value) as nat,
                            ),
                        ),
                    )
                }
            },
        }
    }
}

/// Whether `block` is what is read from bytes that begin with a block
/// behind its length: that block.
pub open spec fn reads_back(rest: Seq<u8>, block: Result<Option<Vec<u8>>, CarSplitterError>) -> bool {
    forall|data: Seq<u8>, tail: Seq<u8>|
        data.len() <= MAX_ALLOWED_SECTION_SIZE && rest == #[trigger] (framed(data) + tail) ==> (
        block matches Ok(Some(read)) && read@ == data)
}

/// Reads one length-prefixed block at the position of `reader`, and leaves
/// `reader` behind it. `Ok(None)` says that no block is left. On a failure
/// `reader` stays where it was.
pub fn read_block(reader: &mut ByteSource) -> (block: Result<Option<Vec<u8>>, CarSplitterError>)
    ensures
        final(reader).bytes == old(reader).bytes,
        match block {
            Ok(Some(data)) => block_at(old(reader).bytes@, old(reader).pos as nat) == Ok::<
                Option<(Seq<u8>, nat)>,
                ErrorKind,
            >(Some((data@, final(reader).pos as nat))),
            Ok(None) => block_at(old(reader).bytes@, old(reader).pos as nat) == Ok::<
                Option<(Seq<u8>, nat)>,
                ErrorKind,
            >(None) && final(reader).pos == old(reader).pos,
            Err(e) => block_at(old(reader).bytes@, old(reader).pos as nat) == Err::<
                Option<(Seq<u8>, nat)>,
                ErrorKind,
            >(e.kind()) && final(reader).pos == old(reader).pos,
        },
        reads_back(old(reader).rest(), block),
{
    let ghost rest = reader.rest();
    proof {
        assert forall|data: Seq<u8>, tail: Seq<u8>| rest == #[trigger] (framed(data) + tail) implies rest.len()
            > 0 by {
            lemma_varint_bytes_nonempty(data.len());
        }
    }
    if reader.remaining().len() == 0 {
        return Ok(None);
    }
    let origin = reader.stream_position();
    let read = read_varint(reader.remaining());
    proof {
        assert forall|data: Seq<u8>, tail: Seq<u8>|
            data.len() <= MAX_ALLOWED_SECTION_SIZE && rest == #[trigger] (framed(data)
                + tail) implies read == (VarintRead::Value {
            value: data.len() as usize,
            consumed: varint_bytes(data.len()).len() as usize,
        }) by {
            assert(rest =~= varint_bytes(data.len() as usize as nat) + (data + tail));
        }
    }
    let (len, consumed) = match read {
        VarintRead::Value { value, consumed } => (value, consumed),
        VarintRead::Eof => {
            return Err(CarSplitterError::Io(IoFailure::UnexpectedEof));
        },
        VarintRead::Invalid => {
            return Err(CarSplitterError::Io(IoFailure::InvalidData));
        },
    };
    if len > MAX_ALLOWED_SECTION_SIZE {
        return Err(CarSplitterError::TooLargeSection(len));
    }
    assert(reader.pos + consumed <= reader.bytes.len());
    reader.seek(origin + consumed as u64);
    match reader.read_exact(len) {
        Ok(data) => {
            assert(data@ == rest.subrange(consumed as int, consumed + len));
            proof {
                assert forall|framed_data: Seq<u8>, tail: Seq<u8>|
                    framed_data.len() <= MAX_ALLOWED_SECTION_SIZE && rest == #[trigger] (framed(
                        framed_data,
                    ) + tail) implies data@ == framed_data by {
                    assert(data@ =~= framed_data);
                }
            }
            Ok(Some(data))
        },
        Err(failure) => {
            reader.seek(origin);
            Err(CarSplitterError::Io(failure))
        },
    }
}

/// What reading one section of `bytes` at `pos` gives: nothing where no
/// byte is left; else where the section's payload stands and the position
/// behind the section, or the failure. Bytes that end inside the length are
/// an I/O failure. An identifier that takes more bytes than the section
/// declares is a parsing failure.
pub open spec fn section_at(bytes: Seq<u8>, pos: nat) -> Result<
    Option<(SectionValue, nat)>,
    ErrorKind,
> {
    if bytes_from(bytes, pos).len() == 0 {
        Ok(None)
    } else {
        section_behind_length(bytes, pos)
    }
}

/// What reading one section of `bytes` at `pos` gives where a byte is left.
pub open spec fn section_behind_length(bytes: Seq<u8>, pos: nat) -> Result<
    Option<(SectionValue, nat)>,
    ErrorKind,
> {
    match varint_at(bytes_from(bytes, pos)) {
        VarintRead::Eof => Err(ErrorKind::Io(IoFailure::UnexpectedEof)),
        VarintRead::Invalid => Err(ErrorKind::Io(IoFailure::InvalidData)),
        VarintRead::Value { value, consumed } => {
            let start = (pos + consumed) as nat;
            if value > MAX_ALLOWED_SECTION_SIZE {
                Err(ErrorKind::TooLargeSection(value))
            } else {
                match cid_at(bytes_from(bytes, start)) {
                    None => Err(ErrorKind::Parsing),
                    Some((cid, taken)) => {
                        if taken > value {
                            Err(ErrorKind::Parsing)
                        } else if start + value > u64::MAX {
                            Err(ErrorKind::Io(IoFailure::InvalidInput))
                        } else {
                            Ok(
                                Some(
                                    (
                                        SectionValue {
                                            cid,
                                            pos: (start + taken) as u64,
                                            len: (value - taken) as usize,
                                        },
                                        (start + value) as nat,
                                    ),
                                ),
                            )
                        }
                    },
                }
            }
        },
    }
}

/// How far a scan that stands at `pos` is from the end of `bytes`.
pub open spec fn left_to_scan(bytes: Seq<u8>, pos: nat) -> nat {
    if pos < bytes.len() {
        (bytes.len() - pos) as nat
    } else {
        0
    }
}

/// The sections of `bytes` from `pos` on, in the order in which they stand,
/// or the kind of the first failure.
pub open spec fn sections_from(bytes: Seq<u8>, pos: nat) -> Result<Seq<SectionValue>, ErrorKind>
    decreases left_to_scan(bytes, pos),
{
    match section_at(bytes, pos) {
        Err(kind) => Err(kind),
        Ok(None) => Ok(Seq::empty()),
        Ok(Some((section, next))) => match sections_from(bytes, next) {
            Err(kind) => Err(kind),
            Ok(rest) => Ok(seq![section] + rest),
        },
    }
}

/// A section always ends behind the place where it starts.
pub proof fn lemma_section_advances(bytes: Seq<u8>, pos: nat)
    ensures
        section_at(bytes, pos) matches Ok(Some((_, next))) ==> left_to_scan(bytes, next)
            < left_to_scan(bytes, pos),
{
}

/// The section that a lookup of `cid` finds: the last one recorded for it.
pub open spec fn lookup(sections: Seq<SectionValue>, cid: Seq<u8>) -> Option<SectionValue>
    decreases sections.len(),
{
    if sections.len() == 0 {
        None
    } else if sections.last().cid == cid {
        Some(sections.last())
    } else {
        lookup(sections.drop_last(), cid)
    }
}

/// The header and the sections of the archive that `bytes` hold from `pos`
/// on, or the kind of the first failure.
pub open spec fn archive_at(bytes: Seq<u8>, pos: nat) -> Result<
    (HeaderValue, Seq<SectionValue>),
    ErrorKind,
> {
    match HeaderValue::reading(bytes, pos) {
        Err(kind) => Err(kind),
        Ok((header, next)) => match sections_from(bytes, next) {
            Err(kind) => Err(kind),
            Ok(sections) => Ok((header, sections)),
        },
    }
}

/// Reads one section at the position of `reader`, and leaves `reader` behind
/// it without reading the payload. `Ok(None)` says that no section is left.
/// On a failure `reader` stays where it was.
pub fn read_section(reader: &mut ByteSource) -> (section: Result<Option<Section>, CarSplitterError>)
    ensures
        final(reader).bytes == old(reader).bytes,
        match section {
            Ok(Some(s)) => section_at(old(reader).bytes@, old(reader).pos as nat) == Ok::<
                Option<(SectionValue, nat)>,
                ErrorKind,
            >(Some((s@, final(reader).pos as nat))),
            Ok(None) => section_at(old(reader).bytes@, old(reader).pos as nat) == Ok::<
                Option<(SectionValue, nat)>,
                ErrorKind,
            >(None) && final(reader).pos == old(reader).pos,
            Err(e) => section_at(old(reader).bytes@, old(reader).pos as nat) == Err::<
                Option<(SectionValue, nat)>,
                ErrorKind,
            >(e.kind()) && final(reader).pos == old(reader).pos,
        },
{
    if reader.remaining().len() == 0 {
        return Ok(None);
    }
    let origin = reader.stream_position();
    let (len, consumed) = match read_varint(reader.remaining()) {
        VarintRead::Value { value, consumed } => (value, consumed),
        VarintRead::Eof => {
            return Err(CarSplitterError::Io(IoFailure::UnexpectedEof));
        },
        VarintRead::Invalid => {
            return Err(CarSplitterError::Io(IoFailure::InvalidData));
        },
    };
    if len > MAX_ALLOWED_SECTION_SIZE {
        return Err(CarSplitterError::TooLargeSection(len));
    }
    assert(reader.pos + consumed <= reader.bytes.len());
    let start = origin + consumed as u64;
    reader.seek(start);
    let (cid, taken) = match read_cid(reader.remaining()) {
        Ok(parsed) => parsed,
        Err(message) => {
            reader.seek(origin);
            return Err(CarSplitterError::Parsing(message));
        },
    };
    if taken > len {
        reader.seek(origin);
        return Err(
            CarSplitterError::Parsing("identifier runs past the end of its section".to_owned()),
        );
    }
    assert(start + taken <= reader.bytes.len());
    let pos = start + taken as u64;
    let payload = len - taken;
    reader.seek(pos);
    match reader.seek_forward(payload) {
        Ok(_) => Ok(Some(Section::new(cid, pos, payload))),
        Err(failure) => {
            reader.seek(origin);
            Err(CarSplitterError::Io(failure))
        },
    }
}

/// The bytes of an archive and the index of its sections.
pub struct Archive {
    pub bytes: Seq<u8>,
    pub index: Seq<SectionValue>,
}

impl Archive {
    /// The bytes of the block `cid`, or the kind of the failure: an invalid
    /// section where the identifier is not indexed, an I/O failure where the
    /// bytes do not hold the payload.
    pub open spec fn block_data(self, cid: Seq<u8>) -> Result<Seq<u8>, ErrorKind> {
        match lookup(self.index, cid) {
            None => Err(ErrorKind::InvalidSection),
            Some(section) => match section.data(self.bytes) {
                None => Err(ErrorKind::Io(IoFailure::UnexpectedEof)),
                Some(data) => Ok(data),
            },
        }
    }

    /// The decoded block `cid`, or the kind of the failure: not found where
    /// the identifier is not indexed, else as the section says.
    pub open spec fn block_node(self, cid: Seq<u8>) -> Result<NodeValue, ErrorKind> {
        match lookup(self.index, cid) {
            None => Err(ErrorKind::NotFound),
            Some(section) => section.node(self.bytes),
        }
    }
}

/// An archive that has been scanned once: its header, and where each of its
/// blocks stands in the source.
#[derive(Debug)]
pub struct CarReader {
    pub inner: ByteSource,
    pub sections: Vec<Section>,
    pub header: CarHeader,
}

impl CarReader {
    /// The sections of the index, in the order of the scan.
    pub open spec fn index(&self) -> Seq<SectionValue> {
        self.sections@.map_values(|s: Section| s@)
    }

    /// The archive that the reader holds.
    pub open spec fn archive(&self) -> Archive {
        Archive { bytes: self.inner.bytes@, index: self.index() }
    }

    /// Reads the header that stands at the position of `inner`, then scans
    /// the sections behind it into the index.
    pub fn new(inner: ByteSource) -> (reader: Result<CarReader, CarSplitterError>)
        ensures
            match reader {
                Ok(r) => r.inner.bytes == inner.bytes && archive_at(
                    inner.bytes@,
                    inner.pos as nat,
                ) == Ok::<(HeaderValue, Seq<SectionValue>), ErrorKind>((r.header@, r.index())),
                Err(e) => archive_at(inner.bytes@, inner.pos as nat) == Err::<
                    (HeaderValue, Seq<SectionValue>),
                    ErrorKind,
                >(e.kind()),
            },
    {
        let ghost bytes = inner.bytes@;
        let mut source = inner;
        let header = match CarHeader::read_header(&mut source) {
            Ok(header) => header,
            Err(e) => {
                return Err(e);
            },
        };
        let ghost first = source.pos as nat;
        let mut sections: Vec<Section> = Vec::new();
        loop
            invariant
                source.bytes == inner.bytes,
                bytes == inner.bytes@,
                HeaderValue::reading(bytes, inner.pos as nat) == Ok::<(HeaderValue, nat), ErrorKind>(
                    (header@, first),
                ),
                sections_from(bytes, first) == match sections_from(bytes, source.pos as nat) {
                    Err(kind) => Err::<Seq<SectionValue>, ErrorKind>(kind),
                    Ok(rest) => Ok(sections@.map_values(|s: Section| s@) + rest),
                },
            decreases left_to_scan(bytes, source.pos as nat),
        {
            proof {
                lemma_section_advances(bytes, source.pos as nat);
            }
            let ghost before = sections@.map_values(|s: Section| s@);
            match read_section(&mut source) {
                Ok(Some(section)) => {
                    sections.push(section);
                    proof {
                        let after = sections@.map_values(|s: Section| s@);
                        assert(after =~= before + seq![section@]);
                        match sections_from(bytes, source.pos as nat) {
                            Ok(rest) => {
                                assert(before + (seq![section@] + rest) =~= after + rest);
                            },
                            Err(_) => {},
                        }
                    }
                },
                Ok(None) => {
                    assert(before + Seq::<SectionValue>::empty() =~= before);
                    return Ok(CarReader { inner: source, sections, header });
                },
                Err(e) => {
                    return Err(e);
                },
            }
        }
    }

    /// The header of the archive.
    pub fn header(&self) -> (header: &CarHeader)
        ensures
            header == self.header,
    {
        &self.header
    }

    /// Where the index holds the section for `cid`.
    pub fn find(&self, cid: &Cid) -> (found: Option<usize>)
        ensures
            match found {
                Some(i) => i < self.sections@.len() && lookup(self.index(), cid@) == Some(
                    self.sections@[i as int]@,
                ),
                None => lookup(self.index(), cid@) is None,
            },
    {
        let ghost all = self.index();
        let mut i: usize = self.sections.len();
        assert(all.subrange(0, i as int) =~= all);
        while i > 0
            invariant
                i <= self.sections.len(),
                all == self.index(),
                lookup(all, cid@) == lookup(all.subrange(0, i as int), cid@),
            decreases i,
        {
            let ghost prefix = all.subrange(0, i as int);
            i -= 1;
            assert(prefix.drop_last() =~= all.subrange(0, i as int));
            assert(prefix.last() == self.sections@[i as int]@);
            if self.sections[i].cid.same(cid) {
                return Some(i);
            }
        }
        assert(all.subrange(0, 0).len() == 0);
        None
    }

    /// Reads the bytes of the block `cid`.
    pub fn read_section_data(&mut self, cid: &Cid) -> (read: Result<Vec<u8>, CarSplitterError>)
        ensures
            final(self).archive() == old(self).archive(),
            final(self).header == old(self).header,
            match lookup(old(self).index(), cid@) {
                None => final(self).inner.pos == old(self).inner.pos,
                Some(section) => final(self).inner.pos == section.pos + (if read is Ok {
                    section.len as int
                } else {
                    0
                }),
            },
            match read {
                Ok(data) => old(self).archive().block_data(cid@) == Ok::<Seq<u8>, ErrorKind>(
                    data@,
                ),
                Err(e) => old(self).archive().block_data(cid@) == Err::<Seq<u8>, ErrorKind>(
                    e.kind(),
                ),
            },
    {
        match self.find(cid) {
            Some(i) => self.sections[i].read_data(&mut self.inner),
            None => Err(CarSplitterError::InvalidSection("CID not exist".to_owned())),
        }
    }

    /// Reads and decodes the block `cid`.
    pub fn ipld(&mut self, cid: &Cid) -> (decoded: Result<Node, CarSplitterError>)
        ensures
            final(self).archive() == old(self).archive(),
            final(self).header == old(self).header,
            match lookup(old(self).index(), cid@) {
                None => final(self).inner.pos == old(self).inner.pos,
                Some(section) => final(self).inner.pos == section.pos + (if section.data(
                    old(self).inner.bytes@,
                ) is Some {
                    section.len as int
                } else {
                    0
                }),
            },
            match decoded {
                Ok(node) => old(self).archive().block_node(cid@) == Ok::<NodeValue, ErrorKind>(
                    node@,
                ),
                Err(e) => old(self).archive().block_node(cid@) == Err::<NodeValue, ErrorKind>(
                    e.kind(),
                ),
            },
    {
        match self.find(cid) {
            Some(i) => self.sections[i].ipld(&mut self.inner),
            None => Err(CarSplitterError::NotFound("CID not exist".to_owned())),
        }
    }
}

} // verus!
