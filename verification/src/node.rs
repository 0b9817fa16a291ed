use crate::cbor::cbor_is_safe;
use crate::cbor::cbor_safe;
use crate::cid::Cid;
use crate::error::CarSplitterError;
use crate::error::ErrorKind;
use libipld::Ipld;
use libipld::IpldCodec;
use libipld::prelude::Codec;
use libipld_cbor::DagCborCodec;
use vstd::prelude::*;

verus! {

/// A decoded value of the IPLD data model.
#[derive(Debug, PartialEq, Eq)]
pub enum Node {
    Null,
    Bool(bool),
    Integer(i128),
    /// A floating-point number, as the bits of its IEEE 754 double.
    Float(u64),
    String(String),
    Bytes(Vec<u8>),
    List(Vec<Node>),
    /// The entries of a map keyed by strings, in the order of their keys.
    StringMap(Vec<(String, Node)>),
    Link(Cid),
}

/// What a [`Node`] stands for.
pub enum NodeValue {
    Null,
    Bool(bool),
    Integer(int),
    Float(u64),
    String(Seq<char>),
    Bytes(Seq<u8>),
    List(Seq<NodeValue>),
    StringMap(Seq<(Seq<char>, NodeValue)>),
    Link(Seq<u8>),
}

/// What `node` stands for.
pub open spec fn node_value(node: Node) -> NodeValue
    decreases node,
{
    match node {
        Node::Null => NodeValue::Null,
        Node::Bool(b) => NodeValue::Bool(b),
        Node::Integer(i) => NodeValue::Integer(i as int),
        Node::Float(bits) => NodeValue::Float(bits),
        Node::String(s) => NodeValue::String(s@),
        Node::Bytes(b) => NodeValue::Bytes(b@),
        Node::List(items) => NodeValue::List(
            Seq::new(
                items@.len(),
                |i: int|
                    if 0 <= i < items@.len() {
                        node_value(items@[i])
                    } else {
                        NodeValue::Null
                    },
            ),
        ),
        Node::StringMap(entries) => NodeValue::StringMap(
            Seq::new(
                entries@.len(),
                |i: int|
                    if 0 <= i < entries@.len() {
                        (entries@[i].0@, node_value(entries@[i].1))
                    } else {
                        (Seq::empty(), NodeValue::Null)
                    },
            ),
        ),
        Node::Link(cid) => NodeValue::Link(cid@),
    }
}

impl View for Node {
    type V = NodeValue;

    open spec fn view(&self) -> NodeValue {
        node_value(*self)
    }
}

/// `libipld::Ipld`, the value that the codecs of `libipld` decode to and
/// encode from. Nothing inside it is read here.
#[verifier::external_type_specification]
#[verifier::external_body]
pub struct ExIpld(Ipld);

/// Rebuilds a value decoded by `libipld` as a [`Node`], variant by variant.
/// Nothing is claimed of the result here; the codec functions that call this
/// name what they return.
#[verifier::external_body]
fn node_from_ipld(value: Ipld) -> Node {
    match value {
        Ipld::Null => Node::Null,
        Ipld::Bool(b) => Node::Bool(b),
        Ipld::Integer(i) => Node::Integer(i),
        Ipld::Float(f) => Node::Float(f.to_bits()),
        Ipld::String(s) => Node::String(s),
        Ipld::Bytes(b) => Node::Bytes(b),
        Ipld::List(l) => Node::List(l.into_iter().map(node_from_ipld).collect()),
        Ipld::StringMap(m) => Node::StringMap(m.into_iter().map(|(k, v)| (k, node_from_ipld(v))).collect()),
        Ipld::Link(c) => Node::Link(Cid { bytes: c.to_bytes() }),
    }
}

/// Rebuilds a [`Node`] as a value that `libipld` encodes; `None` where an
/// identifier in it is one that `libipld` cannot read, or where it holds a
/// floating-point number.
#[verifier::external_body]
fn node_to_ipld(node: Node) -> Option<Ipld> {
    Some(match node {
        Node::Null => Ipld::Null,
        Node::Bool(b) => Ipld::Bool(b),
        Node::Integer(i) => Ipld::Integer(i),
        Node::Float(_) => return None,
        Node::String(s) => Ipld::String(s),
        Node::Bytes(b) => Ipld::Bytes(b),
        Node::List(l) => Ipld::List(l.into_iter().map(node_to_ipld).collect::<Option<_>>()?),
        Node::StringMap(m) => Ipld::StringMap(m.into_iter().map(|(k, v)| Some((k, node_to_ipld(v)?))).collect::<Option<_>>()?),
        Node::Link(c) => Ipld::Link(c.bytes.try_into().ok()?),
    })
}

impl NodeValue {
    /// Whether entry `i` is the first one keyed `name`.
    pub open spec fn is_first_entry(
        entries: Seq<(Seq<char>, NodeValue)>,
        name: Seq<char>,
        i: int,
    ) -> bool {
        &&& 0 <= i < entries.len()
        &&& entries[i].0 == name
        &&& forall|j: int| 0 <= j < i ==> (#[trigger] entries[j]).0 != name
    }

    /// The value of the field `name`: `None` unless this is a map that has
    /// an entry with that key.
    pub open spec fn field(self, name: Seq<char>) -> Option<NodeValue> {
        match self {
            NodeValue::StringMap(entries) => {
                if exists|i: int| Self::is_first_entry(entries, name, i) {
                    Some(entries[choose|i: int| Self::is_first_entry(entries, name, i)].1)
                } else {
                    None
                }
            },
            _ => None,
        }
    }

    /// Whether no floating-point number occurs in the value.
    pub open spec fn float_free(self) -> bool
        decreases self,
    {
        match self {
            NodeValue::Float(_) => false,
            NodeValue::List(items) => forall|i: int|
                0 <= i < items.len() ==> (#[trigger] items[i]).float_free(),
            NodeValue::StringMap(entries) => forall|i: int|
                0 <= i < entries.len() ==> (#[trigger] entries[i]).1.float_free(),
            _ => true,
        }
    }
}

impl Node {
    /// The field `name` of a map; `None` for a map without that key and for
    /// every value that is not a map.
    pub fn field(&self, name: &String) -> (found: Option<&Node>)
        ensures
            match found {
                Some(node) => self@.field(name@) == Some(node@),
                None => self@.field(name@) is None,
            },
    {
        match self {
            Node::StringMap(entries) => {
                let ghost values = self@->StringMap_0;
                let mut i: usize = 0;
                while i < entries.len()
                    invariant
                        i <= entries.len(),
                        self@ == NodeValue::StringMap(values),
                        values.len() == entries@.len(),
                        forall|j: int|
                            0 <= j < entries@.len() ==> (#[trigger] values[j]) == (
                                entries@[j].0@,
                                entries@[j].1@,
                            ),
                        forall|j: int| 0 <= j < i ==> (#[trigger] values[j]).0 != name@,
                    decreases entries.len() - i,
                {
                    if entries[i].0 == *name {
                        assert(NodeValue::is_first_entry(values, name@, i as int));
                        return Some(&entries[i].1);
                    }
                    i += 1;
                }
                assert(forall|k: int| !NodeValue::is_first_entry(values, name@, k));
                None
            },
            _ => None,
        }
    }
}

/// What `DagCborCodec` encodes a value as; `None` where it refuses the value.
pub uninterp spec fn dag_cbor_encoding(value: NodeValue) -> Option<Seq<u8>>;

/// What `DagCborCodec` decodes bytes as; `None` where it refuses them.
pub uninterp spec fn dag_cbor_decoding(bytes: Seq<u8>) -> Option<NodeValue>;

/// The number of the codec that an identifier declares; `None` where the
/// identifier cannot be read.
pub uninterp spec fn codec_reading(cid: Seq<u8>) -> Option<u64>;

/// What the codec of a number decodes bytes as; `None` where the number is
/// that of no codec, and where the codec refuses the bytes.
pub uninterp spec fn codec_decoding(codec: u64, data: Seq<u8>) -> Option<NodeValue>;

/// The number of the codec DAG-CBOR.
pub const DAG_CBOR: u64 = 0x71;

/// What a block's bytes decode as with the codec that its identifier
/// declares: `None` where the identifier cannot be read, where the codec is
/// DAG-CBOR and the bytes are not safe to let it at, and where the codec
/// refuses the bytes.
pub open spec fn block_decoding(cid: Seq<u8>, data: Seq<u8>) -> Option<NodeValue> {
    match codec_reading(cid) {
        None => None,
        Some(codec) => if codec == DAG_CBOR && !cbor_safe(data) {
            None
        } else {
            codec_decoding(codec, data)
        },
    }
}

/// Encodes a value with `libipld_cbor::DagCborCodec` (`Codec::encode`).
///
/// The bytes are a function of the value alone and are named by
/// [`dag_cbor_encoding`]; an identifier that `libipld` cannot read back, or a
/// refusal of the codec, comes out as the message of the failure. Values that
/// hold a floating-point number are left out.
#[verifier::external_body]
pub(crate) fn dag_cbor_encode(node: Node) -> (encoded: Result<Vec<u8>, String>)
    requires
        node@.float_free(),
    ensures
        match encoded {
            Ok(bytes) => dag_cbor_encoding(node@) == Some(bytes@),
            Err(_) => dag_cbor_encoding(node@) is None,
        },
{
    let value = node_to_ipld(node).ok_or("an identifier cannot be read".to_string())?;
    DagCborCodec.encode(&value).map_err(|e| e.to_string())
}

/// Decodes bytes with `libipld_cbor::DagCborCodec` (`Codec::decode`).
///
/// The value is a function of the bytes alone and is named by
/// [`dag_cbor_decoding`]. The codec allocates what a head declares before it
/// reads what follows, and calls itself for every level of nesting: so only
/// bytes that [`cbor_safe`] accepts are let at it. On those it allocates no
/// more items than there are bytes, and nests no deeper than the bound.
#[verifier::external_body]
pub(crate) fn dag_cbor_decode(bytes: &[u8]) -> (decoded: Result<Node, String>)
    requires
        cbor_safe(bytes@),
    ensures
        match decoded {
            Ok(node) => dag_cbor_decoding(bytes@) == Some(node@),
            Err(_) => dag_cbor_decoding(bytes@) is None,
        },
{
    DagCborCodec.decode(bytes).map(node_from_ipld).map_err(|e| e.to_string())
}

/// Reads the number of the codec that an identifier declares, with
/// `libipld::Cid::try_from` on the identifier's binary form and `Cid::codec`.
///
/// The number is a function of the identifier alone and is named by
/// [`codec_reading`]. An identifier that cannot be read comes out as the
/// message of the failure.
#[verifier::external_body]
pub(crate) fn cid_codec(cid: &Cid) -> (codec: Result<u64, String>)
    ensures
        match codec {
            Ok(number) => codec_reading(cid@) == Some(number),
            Err(_) => codec_reading(cid@) is None,
        },
{
    libipld::Cid::try_from(cid.bytes.as_slice()).map(|id| id.codec()).map_err(|e| e.to_string())
}

/// Decodes bytes with the codec of a number: the codec is chosen by
/// `libipld::IpldCodec::try_from`, and decodes with `Codec::decode`.
///
/// The value is a function of the number and the bytes alone and is named by
/// [`codec_decoding`]. A number of no codec and bytes that the codec refuses
/// come out as the message of the failure. DAG-CBOR is let only at bytes
/// that [`cbor_safe`] accepts, for the reasons given at [`dag_cbor_decode`].
/// The other codecs (raw bytes, DAG-JSON, DAG-PB) read no more than the
/// bytes hold and bound their own nesting.
#[verifier::external_body]
pub(crate) fn decode_with(codec: u64, data: &[u8]) -> (decoded: Result<Node, String>)
    requires
        codec == DAG_CBOR ==> cbor_safe(data@),
    ensures
        match decoded {
            Ok(node) => codec_decoding(codec, data@) == Some(node@),
            Err(_) => codec_decoding(codec, data@) is None,
        },
{
    let codec = IpldCodec::try_from(codec).map_err(|e| e.to_string())?;
    codec.decode(data).map(node_from_ipld).map_err(|e| e.to_string())
}

/// Decodes a block with the codec that its identifier declares. The bytes
/// are not hashed. Bytes that are not safe to let the codec at are refused
/// before the codec sees them.
pub fn decode_block(cid: &Cid, data: &[u8]) -> (decoded: Result<Node, CarSplitterError>)
    ensures
        match decoded {
            Ok(node) => block_decoding(cid@, data@) == Some(node@),
            Err(e) => block_decoding(cid@, data@) is None && e.kind() == ErrorKind::Parsing,
        },
{
    let codec = match cid_codec(cid) {
        Ok(codec) => codec,
        Err(message) => {
            return Err(CarSplitterError::Parsing(message));
        },
    };
    if codec == DAG_CBOR && !cbor_is_safe(data) {
        return Err(CarSplitterError::Parsing("block declares more than it holds".to_owned()));
    }
    match decode_with(codec, data) {
        Ok(node) => Ok(node),
        Err(message) => Err(CarSplitterError::Parsing(message)),
    }
}

} // verus!
