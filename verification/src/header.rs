use crate::cbor::cbor_is_safe;
use crate::cbor::cbor_safe;
use crate::cid::Cid;
use crate::error::CarSplitterError;
use crate::error::ErrorKind;
use crate::node::Node;
use crate::node::NodeValue;
use crate::node::dag_cbor_decode;
use crate::node::dag_cbor_decoding;
use crate::node::dag_cbor_encode;
use crate::node::dag_cbor_encoding;
use crate::reader::block_at;
use crate::reader::read_block;
use crate::reader::MAX_ALLOWED_SECTION_SIZE;
use crate::writer::framed;
use crate::source::ByteSource;
use vstd::prelude::*;

verus! {

/// The header of an archive: its roots and the version of the format.
#[derive(Debug, PartialEq, Eq)]
pub struct CarHeader {
    pub roots: Vec<Cid>,
    pub version: u64,
}

/// What a [`CarHeader`] stands for.
pub struct HeaderValue {
    pub roots: Seq<Seq<u8>>,
    pub version: u64,
}

impl View for CarHeader {
    type V = HeaderValue;

    open spec fn view(&self) -> HeaderValue {
        HeaderValue { roots: self.roots@.map_values(|c: Cid| c@), version: self.version }
    }
}

impl HeaderValue {
    /// The header as a value of the data model: a map of `roots`, a list of
    /// links, and `version`, an integer.
    pub open spec fn as_node(self) -> NodeValue {
        NodeValue::StringMap(
            seq![
                ("roots"@, NodeValue::List(self.roots.map_values(|r: Seq<u8>| NodeValue::Link(r)))),
                ("version"@, NodeValue::Integer(self.version as int)),
            ],
        )
    }

    /// The header that a value of the data model holds: `None` unless the
    /// value has a field `roots` that is a list of links and a field
    /// `version` that is an integer of 64 bits without sign.
    pub open spec fn of_node(node: NodeValue) -> Option<HeaderValue> {
        match (node.field("roots"@), node.field("version"@)) {
            (Some(NodeValue::List(items)), Some(NodeValue::Integer(version))) => {
                if (forall|i: int| 0 <= i < items.len() ==> (#[trigger] items[i]) is Link) && 0
                    <= version <= u64::MAX {
                    Some(
                        HeaderValue {
                            roots: items.map_values(|item: NodeValue| item->Link_0),
                            version: version as u64,
                        },
                    )
                } else {
                    None
                }
            },
            _ => None,
        }
    }

    /// The value that `bytes` decode as: `None` where they are not safe to let
    /// the codec at, and where the codec refuses them.
    pub open spec fn decoded_node(bytes: Seq<u8>) -> Option<NodeValue> {
        if cbor_safe(bytes) {
            dag_cbor_decoding(bytes)
        } else {
            None
        }
    }

    /// What decoding `bytes` as a header gives: the header, or the kind of
    /// the failure. Bytes that the codec refuses, a value that holds no
    /// header and a header without roots are parsing failures; a version
    /// other than 1 makes an invalid file.
    pub open spec fn decoding(bytes: Seq<u8>) -> Result<HeaderValue, ErrorKind> {
        match Self::decoded_node(bytes) {
            None => Err(ErrorKind::Parsing),
            Some(node) => match Self::of_node(node) {
                None => Err(ErrorKind::Parsing),
                Some(header) => if header.roots.len() == 0 {
                    Err(ErrorKind::Parsing)
                } else if header.version != 1 {
                    Err(ErrorKind::InvalidFile)
                } else {
                    Ok(header)
                },
            },
        }
    }

    /// Whether the header is one that an archive may have: it has a root,
    /// and its version is 1.
    pub open spec fn is_valid(self) -> bool {
        self.roots.len() > 0 && self.version == 1
    }

    /// The encoded header; `None` where the codec refuses it, and where the
    /// header is one that an archive may have and its bytes do not decode as
    /// the header again.
    pub open spec fn encoding(self) -> Option<Seq<u8>> {
        match dag_cbor_encoding(self.as_node()) {
            None => None,
            Some(bytes) => if self.is_valid() && Self::decoding(bytes) != Ok::<
                HeaderValue,
                ErrorKind,
            >(self) {
                None
            } else {
                Some(bytes)
            },
        }
    }

    /// What reading a header from the start of `bytes` at `pos` gives, and
    /// where the reading ends.
    pub open spec fn reading(bytes: Seq<u8>, pos: nat) -> Result<(HeaderValue, nat), ErrorKind> {
        match block_at(bytes, pos) {
            Err(kind) => Err(kind),
            Ok(None) => Err(ErrorKind::Parsing),
            Ok(Some((data, next))) => match Self::decoding(data) {
                Err(kind) => Err(kind),
                Ok(header) => Ok((header, next)),
            },
        }
    }
}

/// A header written as a value of the data model is read back from it
/// unchanged.
pub proof fn lemma_header_node_round_trip(header: HeaderValue)
    ensures
        HeaderValue::of_node(header.as_node()) == Some(header),
{
    reveal_strlit("roots");
    reveal_strlit("version");
    let node = header.as_node();
    let entries = node->StringMap_0;
    assert("roots"@ != "version"@) by {
        assert("roots"@.len() == 5);
        assert("version"@.len() == 7);
    }
    assert(NodeValue::is_first_entry(entries, "roots"@, 0));
    assert(NodeValue::is_first_entry(entries, "version"@, 1));
    let r = choose|i: int| NodeValue::is_first_entry(entries, "roots"@, i);
    let v = choose|i: int| NodeValue::is_first_entry(entries, "version"@, i);
    assert(r == 0);
    assert(v == 1);
    let items = header.roots.map_values(|r: Seq<u8>| NodeValue::Link(r));
    assert(node.field("roots"@) == Some(NodeValue::List(items)));
    assert(node.field("version"@) == Some(NodeValue::Integer(header.version as int)));
    assert(items.map_values(|item: NodeValue| item->Link_0) =~= header.roots);
}

/// The encoded form of a header that an archive may have decodes as that
/// header.
pub proof fn lemma_header_round_trip(header: HeaderValue)
    requires
        header.is_valid(),
        header.encoding() is Some,
    ensures
        HeaderValue::decoding(header.encoding().unwrap()) == Ok::<HeaderValue, ErrorKind>(header),
{
}

impl CarHeader {
    /// Whether `self` and `other` have the same roots and version.
    pub fn same(&self, other: &CarHeader) -> (same: bool)
        ensures
            same == (self@ == other@),
    {
        if self.version != other.version || self.roots.len() != other.roots.len() {
            assert(self@.roots.len() == self.roots@.len());
            assert(other@.roots.len() == other.roots@.len());
            return false;
        }
        let mut i: usize = 0;
        while i < self.roots.len()
            invariant
                i <= self.roots.len(),
                self.roots.len() == other.roots.len(),
                self.version == other.version,
                forall|j: int| 0 <= j < i ==> self.roots@[j]@ == other.roots@[j]@,
            decreases self.roots.len() - i,
        {
            if !self.roots[i].same(&other.roots[i]) {
                assert(self@.roots[i as int] != other@.roots[i as int]);
                return false;
            }
            i += 1;
        }
        assert(self@.roots =~= other@.roots);
        true
    }

    /// A header of version 1 with the given roots.
    pub fn new(roots: Vec<Cid>) -> (header: CarHeader)
        ensures
            header.roots == roots,
            header.version == 1,
    {
        CarHeader { roots, version: 1 }
    }

    /// The header as a value of the data model.
    pub fn to_node(&self) -> (node: Node)
        ensures
            node@ == self@.as_node(),
    {
        let mut links: Vec<Node> = Vec::new();
        let mut i: usize = 0;
        while i < self.roots.len()
            invariant
                i <= self.roots.len(),
                links@.len() == i,
                forall|j: int| 0 <= j < i ==> (#[trigger] links@[j])@ == NodeValue::Link(self.roots@[j]@),
            decreases self.roots.len() - i,
        {
            links.push(Node::Link(self.roots[i].clone()));
            i += 1;
        }
        let ghost link_values = self@.roots.map_values(|r: Seq<u8>| NodeValue::Link(r));
        let list = Node::List(links);
        assert(list@ == NodeValue::List(link_values)) by {
            assert(list@->List_0 =~= link_values);
        }
        let mut entries: Vec<(String, Node)> = Vec::new();
        entries.push(("roots".to_owned(), list));
        let version = Node::Integer(self.version as i128);
        assert(version@ == NodeValue::Integer(self.version as int));
        entries.push(("version".to_owned(), version));
        let node = Node::StringMap(entries);
        assert(node@ == self@.as_node()) by {
            let have = node@->StringMap_0;
            let want = self@.as_node()->StringMap_0;
            assert(have.len() == 2 && want.len() == 2);
            assert(have[0] == want[0]);
            assert(have[1] == want[1]);
            assert(have =~= want);
        }
        node
    }

    /// Reads a header out of a value of the data model.
    pub fn from_node(node: &Node) -> (header: Result<CarHeader, CarSplitterError>)
        ensures
            match header {
                Ok(h) => HeaderValue::of_node(node@) == Some(h@),
                Err(e) => HeaderValue::of_node(node@) is None && e.kind() == ErrorKind::Parsing,
            },
    {
        let roots_name = "roots".to_owned();
        let version_name = "version".to_owned();
        let items = match node.field(&roots_name) {
            Some(Node::List(items)) => items,
            _ => {
                return Err(CarSplitterError::Parsing("CAR header has no list of roots".to_owned()));
            },
        };
        let version = match node.field(&version_name) {
            Some(Node::Integer(version)) => *version,
            _ => {
                return Err(CarSplitterError::Parsing("CAR header has no version".to_owned()));
            },
        };
        let ghost item_values = node@.field("roots"@).unwrap()->List_0;
        let mut roots: Vec<Cid> = Vec::new();
        let mut i: usize = 0;
        while i < items.len()
            invariant
                i <= items.len(),
                node@.field("roots"@) == Some(NodeValue::List(item_values)),
                item_values.len() == items@.len(),
                forall|j: int| 0 <= j < items@.len() ==> (#[trigger] item_values[j]) == items@[j]@,
                roots@.len() == i,
                forall|j: int| 0 <= j < i ==> (#[trigger] item_values[j]) is Link,
                forall|j: int| 0 <= j < i ==> (#[trigger] roots@[j])@ == item_values[j]->Link_0,
            decreases items.len() - i,
        {
            match &items[i] {
                Node::Link(cid) => {
                    roots.push(cid.clone());
                },
                _ => {
                    assert(!(item_values[i as int] is Link));
                    return Err(
                        CarSplitterError::Parsing("a root of the CAR header is no link".to_owned()),
                    );
                },
            }
            i += 1;
        }
        if version < 0 || version > u64::MAX as i128 {
            return Err(CarSplitterError::Parsing("CAR version is out of range".to_owned()));
        }
        let header = CarHeader { roots, version: version as u64 };
        assert(header@.roots =~= item_values.map_values(|item: NodeValue| item->Link_0));
        Ok(header)
    }

    /// Decodes and validates a header.
    pub fn decode(buf: &[u8]) -> (header: Result<CarHeader, CarSplitterError>)
        ensures
            match header {
                Ok(h) => HeaderValue::decoding(buf@) == Ok::<HeaderValue, ErrorKind>(h@),
                Err(e) => HeaderValue::decoding(buf@) == Err::<HeaderValue, ErrorKind>(e.kind()),
            },
    {
        if !cbor_is_safe(buf) {
            return Err(CarSplitterError::Parsing("header declares more than it holds".to_owned()));
        }
        let node = match dag_cbor_decode(buf) {
            Ok(node) => node,
            Err(message) => {
                return Err(CarSplitterError::Parsing(message));
            },
        };
        let header = match CarHeader::from_node(&node) {
            Ok(header) => header,
            Err(e) => {
                return Err(e);
            },
        };
        if header.roots.len() == 0 {
            return Err(CarSplitterError::Parsing("CAR roots is empty".to_owned()));
        }
        if header.version != 1 {
            return Err(CarSplitterError::InvalidFile("CAR version 1 is supported only".to_owned()));
        }
        Ok(header)
    }

    /// Encodes the header. The bytes of a header that an archive may have
    /// are decoded again before they are handed out, and refused if they do
    /// not give the header back.
    pub fn encode(&self) -> (encoded: Result<Vec<u8>, CarSplitterError>)
        ensures
            match encoded {
                Ok(bytes) => self@.encoding() == Some(bytes@),
                Err(e) => self@.encoding() is None && e.kind() == ErrorKind::Parsing,
            },
            encoded matches Ok(bytes) ==> (self@.is_valid() ==> HeaderValue::decoding(bytes@)
                == Ok::<HeaderValue, ErrorKind>(self@)),
    {
        let node = self.to_node();
        proof {
            reveal_with_fuel(NodeValue::float_free, 3);
        }
        let bytes = match dag_cbor_encode(node) {
            Ok(bytes) => bytes,
            Err(message) => {
                return Err(CarSplitterError::Parsing(message));
            },
        };
        if self.roots.len() > 0 && self.version == 1 {
            let reads_back = match CarHeader::decode(bytes.as_slice()) {
                Ok(back) => self.same(&back),
                Err(_) => false,
            };
            if !reads_back {
                return Err(CarSplitterError::Parsing("header does not read back".to_owned()));
            }
        }
        Ok(bytes)
    }

    /// Reads the length-prefixed header that stands at the position of `r`,
    /// and leaves `r` behind it.
    pub fn read_header(r: &mut ByteSource) -> (header: Result<CarHeader, CarSplitterError>)
        ensures
            final(r).bytes == old(r).bytes,
            match header {
                Ok(h) => HeaderValue::reading(old(r).bytes@, old(r).pos as nat) == Ok::<
                    (HeaderValue, nat),
                    ErrorKind,
                >((h@, final(r).pos as nat)),
                Err(e) => HeaderValue::reading(old(r).bytes@, old(r).pos as nat) == Err::<
                    (HeaderValue, nat),
                    ErrorKind,
                >(e.kind()),
            },
            header is Err ==> final(r).pos == old(r).pos,
            forall|head: Seq<u8>, tail: Seq<u8>|
                head.len() <= MAX_ALLOWED_SECTION_SIZE && old(r).rest() == #[trigger] (framed(head)
                    + tail) ==> match header {
                    Ok(h) => HeaderValue::decoding(head) == Ok::<HeaderValue, ErrorKind>(h@),
                    Err(e) => HeaderValue::decoding(head) == Err::<HeaderValue, ErrorKind>(
                        e.kind(),
                    ),
                },
    {
        let origin = r.stream_position();
        let data = match read_block(r) {
            Ok(Some(data)) => data,
            Ok(None) => {
                return Err(CarSplitterError::Parsing("invalid Header".to_owned()));
            },
            Err(e) => {
                return Err(e);
            },
        };
        match CarHeader::decode(data.as_slice()) {
            Ok(header) => Ok(header),
            Err(e) => {
                r.seek(origin);
                Err(e)
            },
        }
    }
}

} // verus!
