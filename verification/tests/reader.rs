use carbites::cid::Cid;
use carbites::error::CarSplitterError;
use carbites::error::ErrorKind;
use carbites::error::IoFailure;
use carbites::header::CarHeader;
use carbites::node::Node;
use carbites::reader::read_block;
use carbites::reader::read_section;
use carbites::reader::CarReader;
use carbites::reader::MAX_ALLOWED_SECTION_SIZE;
use carbites::section::Section;
use carbites::source::ByteSource;
use integer_encoding::VarInt;
use libipld::cbor::DagCborCodec;
use libipld::multihash::Code;
use libipld::multihash::MultihashDigest;
use libipld::pb::DagPbCodec;
use libipld::prelude::Codec;
use libipld::Ipld;
use std::collections::BTreeMap;

fn raw_block(data: &[u8]) -> (libipld::Cid, Vec<u8>) {
    (libipld::Cid::new_v1(0x55, Code::Sha2_256.digest(data)), data.to_vec())
}

fn link_entry(cid: &libipld::Cid) -> Ipld {
    let mut map = BTreeMap::new();
    map.insert("Hash".to_string(), Ipld::Link(*cid));
    Ipld::StringMap(map)
}

fn cbor_block(links: &[libipld::Cid]) -> (libipld::Cid, Vec<u8>) {
    let mut map = BTreeMap::new();
    map.insert("Links".to_string(), Ipld::List(links.iter().map(link_entry).collect()));
    let data = DagCborCodec.encode(&Ipld::StringMap(map)).unwrap();
    (libipld::Cid::new_v1(0x71, Code::Sha2_256.digest(&data)), data)
}

fn header_bytes(roots: &[libipld::Cid]) -> Vec<u8> {
    let mut map = BTreeMap::new();
    map.insert("roots".to_string(), Ipld::List(roots.iter().map(|c| Ipld::Link(*c)).collect()));
    map.insert("version".to_string(), Ipld::Integer(1));
    DagCborCodec.encode(&Ipld::StringMap(map)).unwrap()
}

fn framed(bytes: &[u8]) -> Vec<u8> {
    let mut out = bytes.len().encode_var_vec();
    out.extend_from_slice(bytes);
    out
}

fn section(block: &(libipld::Cid, Vec<u8>)) -> Vec<u8> {
    let mut body = block.0.to_bytes();
    body.extend_from_slice(&block.1);
    framed(&body)
}

fn car(roots: &[libipld::Cid], blocks: &[(libipld::Cid, Vec<u8>)]) -> Vec<u8> {
    let mut out = framed(&header_bytes(roots));
    for block in blocks {
        out.extend_from_slice(&section(block));
    }
    out
}

fn id(cid: &libipld::Cid) -> Cid {
    Cid::new(cid.to_bytes())
}

#[test]
fn reader_test() {
    let a = raw_block(b"block a");
    let b = raw_block(b"the second block");
    let root = cbor_block(&[a.0, b.0]);
    let bytes = car(&[root.0], &[root.clone(), a.clone(), b.clone()]);
    let mut reader = CarReader::new(ByteSource::new(bytes.clone())).unwrap();
    assert_eq!(reader.header().version, 1);
    assert_eq!(reader.header().roots, vec![id(&root.0)]);
    assert_eq!(reader.sections.len(), 3);
    assert_eq!(reader.read_section_data(&id(&a.0)).unwrap(), a.1);
    assert_eq!(reader.read_section_data(&id(&b.0)).unwrap(), b.1);
    assert_eq!(reader.read_section_data(&id(&root.0)).unwrap(), root.1);
    assert_eq!(reader.ipld(&id(&a.0)).unwrap(), Node::Bytes(a.1.clone()));
    let at = reader.find(&id(&b.0)).unwrap();
    let found = &reader.sections[at];
    assert_eq!(found.len(), b.1.len());
    assert_eq!(found.pos() as usize, bytes.len() - b.1.len());
    assert_eq!(found.cid(), id(&b.0));
}

#[test]
fn reader_decodes_a_node_with_links() {
    let a = raw_block(b"leaf");
    let root = cbor_block(&[a.0]);
    let bytes = car(&[root.0], &[root.clone(), a.clone()]);
    let mut reader = CarReader::new(ByteSource::new(bytes)).unwrap();
    let expected = Node::StringMap(vec![(
        "Links".to_string(),
        Node::List(vec![Node::StringMap(vec![("Hash".to_string(), Node::Link(id(&a.0)))])]),
    )]);
    assert_eq!(reader.ipld(&id(&root.0)).unwrap(), expected);
}

#[test]
fn reader_decodes_a_protobuf_node() {
    let a = raw_block(b"leaf");
    let mut link = BTreeMap::new();
    link.insert("Hash".to_string(), Ipld::Link(a.0));
    link.insert("Name".to_string(), Ipld::String("a".to_string()));
    link.insert("Tsize".to_string(), Ipld::Integer(4));
    let mut node = BTreeMap::new();
    node.insert("Links".to_string(), Ipld::List(vec![Ipld::StringMap(link)]));
    node.insert("Data".to_string(), Ipld::Bytes(vec![1, 2, 3]));
    let data = DagPbCodec.encode(&Ipld::StringMap(node)).unwrap();
    let cid = libipld::Cid::new_v1(0x70, Code::Sha2_256.digest(&data));
    let bytes = car(&[cid], &[(cid, data)]);
    let mut reader = CarReader::new(ByteSource::new(bytes)).unwrap();
    let decoded = reader.ipld(&id(&cid)).unwrap();
    let expected = Node::StringMap(vec![
        ("Data".to_string(), Node::Bytes(vec![1, 2, 3])),
        (
            "Links".to_string(),
            Node::List(vec![Node::StringMap(vec![
                ("Hash".to_string(), Node::Link(id(&a.0))),
                ("Name".to_string(), Node::String("a".to_string())),
                ("Tsize".to_string(), Node::Integer(4)),
            ])]),
        ),
    ]);
    assert_eq!(decoded, expected);
    assert_eq!(decoded.field(&"Data".to_string()), Some(&Node::Bytes(vec![1, 2, 3])));
    assert_eq!(decoded.field(&"Missing".to_string()), None);
    assert_eq!(Node::Bytes(vec![]).field(&"Data".to_string()), None);
}

#[test]
fn reader_does_not_hash_the_blocks() {
    let a = raw_block(b"what the identifier was made from");
    let forged = (a.0, b"other bytes".to_vec());
    let bytes = car(&[a.0], &[forged.clone()]);
    let mut reader = CarReader::new(ByteSource::new(bytes)).unwrap();
    assert_eq!(reader.ipld(&id(&a.0)).unwrap(), Node::Bytes(forged.1));
}

#[test]
fn reader_keeps_the_last_of_two_sections_with_one_identifier() {
    let a = raw_block(b"first");
    let again = (a.0, b"second".to_vec());
    let bytes = car(&[a.0], &[a.clone(), again.clone()]);
    let mut reader = CarReader::new(ByteSource::new(bytes)).unwrap();
    assert_eq!(reader.read_section_data(&id(&a.0)).unwrap(), again.1);
}

#[test]
fn reader_lookups_of_an_absent_identifier_differ_in_kind() {
    let a = raw_block(b"here");
    let gone = raw_block(b"not here");
    let mut reader = CarReader::new(ByteSource::new(car(&[a.0], &[a.clone()]))).unwrap();
    let err = reader.read_section_data(&id(&gone.0)).unwrap_err();
    assert_eq!(err.kind(), ErrorKind::InvalidSection);
    let err = reader.ipld(&id(&gone.0)).unwrap_err();
    assert_eq!(err.kind(), ErrorKind::NotFound);
    assert_eq!(reader.find(&id(&gone.0)), None);
}

#[test]
fn reader_indexes_a_payload_that_the_source_does_not_hold() {
    let a = raw_block(b"a payload that is cut short");
    let mut bytes = car(&[a.0], &[a.clone()]);
    bytes.truncate(bytes.len() - 5);
    let mut reader = CarReader::new(ByteSource::new(bytes)).unwrap();
    assert_eq!(reader.sections.len(), 1);
    assert_eq!(reader.sections[0].len(), a.1.len());
    let err = reader.read_section_data(&id(&a.0)).unwrap_err();
    assert_eq!(err, CarSplitterError::Io(IoFailure::UnexpectedEof));
}

#[test]
fn reader_without_a_header_is_a_parsing_error() {
    let err = CarReader::new(ByteSource::new(vec![])).unwrap_err();
    assert_eq!(err.kind(), ErrorKind::Parsing);
}

#[test]
fn reader_with_an_undecodable_block_is_a_parsing_error() {
    let data = vec![0xff, 0xff];
    let cid = libipld::Cid::new_v1(0x71, Code::Sha2_256.digest(&data));
    let mut reader = CarReader::new(ByteSource::new(car(&[cid], &[(cid, data)]))).unwrap();
    assert_eq!(reader.ipld(&id(&cid)).unwrap_err().kind(), ErrorKind::Parsing);
}

#[test]
fn read_header_leaves_the_source_behind_the_header() {
    let a = raw_block(b"a");
    let bytes = car(&[a.0], &[a.clone()]);
    let mut source = ByteSource::new(bytes);
    let header = CarHeader::read_header(&mut source).unwrap();
    assert_eq!(header.roots, vec![id(&a.0)]);
    assert_eq!(source.stream_position() as usize, framed(&header_bytes(&[a.0])).len());
}

#[test]
fn read_block_reads_a_block_and_then_none() {
    let mut source = ByteSource::new(vec![3, 10, 20, 30]);
    assert_eq!(read_block(&mut source).unwrap(), Some(vec![10, 20, 30]));
    assert_eq!(source.stream_position(), 4);
    assert_eq!(read_block(&mut source).unwrap(), None);
}

#[test]
fn read_block_decodes_a_length_of_two_bytes() {
    let mut bytes = vec![0xac, 0x02];
    bytes.extend_from_slice(&[7u8; 300]);
    bytes.push(9);
    let mut source = ByteSource::new(bytes);
    assert_eq!(read_block(&mut source).unwrap(), Some(vec![7u8; 300]));
    assert_eq!(source.stream_position(), 302);
}

#[test]
fn read_block_of_length_zero_is_empty() {
    let mut source = ByteSource::new(vec![0]);
    assert_eq!(read_block(&mut source).unwrap(), Some(vec![]));
}

#[test]
fn read_block_fails_on_a_length_that_is_cut_short() {
    let mut source = ByteSource::new(vec![0x80]);
    let err = read_block(&mut source).unwrap_err();
    assert_eq!(err, CarSplitterError::Io(IoFailure::UnexpectedEof));
    assert_eq!(source.stream_position(), 0);
}

#[test]
fn read_block_fails_on_a_length_that_overflows() {
    let mut bytes = vec![0xff; 9];
    bytes.push(0x02);
    bytes.push(0x00);
    let mut source = ByteSource::new(bytes);
    let err = read_block(&mut source).unwrap_err();
    assert_eq!(err.kind(), ErrorKind::Io(IoFailure::UnexpectedEof));
}

#[test]
fn read_block_reads_the_largest_length_and_refuses_it() {
    let mut bytes = vec![0xff; 9];
    bytes.push(0x01);
    let mut source = ByteSource::new(bytes);
    let err = read_block(&mut source).unwrap_err();
    assert_eq!(err.kind(), ErrorKind::TooLargeSection(usize::MAX));
}

#[test]
fn a_scan_stops_with_an_error_at_a_length_that_is_cut_short() {
    let a = raw_block(b"a");
    let mut bytes = car(&[a.0], &[a.clone()]);
    bytes.push(0x80);
    let err = CarReader::new(ByteSource::new(bytes)).unwrap_err();
    assert_eq!(err.kind(), ErrorKind::Io(IoFailure::UnexpectedEof));
}

#[test]
fn a_failed_read_leaves_the_source_where_it_was() {
    let mut source = ByteSource::new(vec![9, 5, 1, 2]);
    source.seek(1);
    assert_eq!(read_block(&mut source).unwrap_err().kind(), ErrorKind::Io(IoFailure::UnexpectedEof));
    assert_eq!(source.stream_position(), 1);
    assert_eq!(read_section(&mut source).unwrap_err().kind(), ErrorKind::Parsing);
    assert_eq!(source.stream_position(), 1);
    assert_eq!(CarHeader::read_header(&mut source).unwrap_err().kind(), ErrorKind::Io(IoFailure::UnexpectedEof));
    assert_eq!(source.stream_position(), 1);
}

#[test]
fn a_failed_lookup_leaves_the_source_where_it_was() {
    let a = raw_block(b"here");
    let gone = raw_block(b"not here");
    let mut reader = CarReader::new(ByteSource::new(car(&[a.0], &[a.clone()]))).unwrap();
    reader.inner.seek(3);
    assert!(reader.read_section_data(&id(&gone.0)).is_err());
    assert_eq!(reader.inner.stream_position(), 3);
    assert!(reader.ipld(&id(&gone.0)).is_err());
    assert_eq!(reader.inner.stream_position(), 3);
    let at = reader.find(&id(&a.0)).unwrap();
    let end = reader.sections[at].pos() + 4;
    reader.read_section_data(&id(&a.0)).unwrap();
    assert_eq!(reader.inner.stream_position(), end);
}

#[test]
fn read_block_refuses_a_length_above_the_limit() {
    let len = MAX_ALLOWED_SECTION_SIZE + 1;
    let mut source = ByteSource::new(len.encode_var_vec());
    assert_eq!(read_block(&mut source).unwrap_err(), CarSplitterError::TooLargeSection(len));
}

#[test]
fn read_block_accepts_the_limit_itself() {
    assert_eq!(MAX_ALLOWED_SECTION_SIZE, 32 << 20);
    let mut source = ByteSource::new(MAX_ALLOWED_SECTION_SIZE.encode_var_vec());
    let err = read_block(&mut source).unwrap_err();
    assert_eq!(err, CarSplitterError::Io(IoFailure::UnexpectedEof));
}

#[test]
fn read_block_fails_on_a_block_that_is_cut_short() {
    let mut source = ByteSource::new(vec![5, 1, 2]);
    let err = read_block(&mut source).unwrap_err();
    assert_eq!(err.kind(), ErrorKind::Io(IoFailure::UnexpectedEof));
}

#[test]
fn read_block_fails_on_a_length_that_does_not_end() {
    let mut source = ByteSource::new(vec![0x80; 11]);
    let err = read_block(&mut source).unwrap_err();
    assert_eq!(err, CarSplitterError::Io(IoFailure::InvalidData));
}

#[test]
fn read_section_records_where_the_payload_stands() {
    let a = raw_block(b"payload");
    let bytes = section(&a);
    let mut source = ByteSource::new(bytes.clone());
    let found = read_section(&mut source).unwrap().unwrap();
    assert_eq!(found.cid(), id(&a.0));
    assert_eq!(found.len(), 7);
    assert_eq!(found.pos() as usize, bytes.len() - 7);
    assert_eq!(source.stream_position() as usize, bytes.len());
    assert!(read_section(&mut source).unwrap().is_none());
}

#[test]
fn read_section_fails_when_the_identifier_runs_past_the_section() {
    let a = raw_block(b"payload");
    let mut bytes = vec![3];
    bytes.extend_from_slice(&a.0.to_bytes());
    bytes.extend_from_slice(&a.1);
    let mut source = ByteSource::new(bytes);
    assert_eq!(read_section(&mut source).unwrap_err().kind(), ErrorKind::Parsing);
}

#[test]
fn read_section_fails_on_an_identifier_that_cannot_be_parsed() {
    let mut source = ByteSource::new(vec![4, 9, 9, 9, 9]);
    assert_eq!(read_section(&mut source).unwrap_err().kind(), ErrorKind::Parsing);
}

#[test]
fn read_section_refuses_a_length_above_the_limit() {
    let len = MAX_ALLOWED_SECTION_SIZE + 7;
    let mut source = ByteSource::new(len.encode_var_vec());
    assert_eq!(read_section(&mut source).unwrap_err(), CarSplitterError::TooLargeSection(len));
}

#[test]
fn malformed_framing_fails_the_whole_scan() {
    let a = raw_block(b"payload");
    let mut bytes = framed(&header_bytes(&[a.0]));
    bytes.push(1);
    bytes.extend_from_slice(&a.0.to_bytes());
    let err = CarReader::new(ByteSource::new(bytes)).unwrap_err();
    assert_eq!(err.kind(), ErrorKind::Parsing);
}

#[test]
fn section_reads_its_payload_from_any_position() {
    let mut source = ByteSource::new(vec![1, 2, 3, 4, 5, 6]);
    source.seek(5);
    let found = Section::new(Cid::new(vec![0]), 2, 3);
    assert_eq!(found.read_data(&mut source).unwrap(), vec![3, 4, 5]);
    let past = Section::new(Cid::new(vec![0]), 4, 3);
    let err = past.read_data(&mut source).unwrap_err();
    assert_eq!(err.kind(), ErrorKind::Io(IoFailure::UnexpectedEof));
    assert_eq!(source.stream_position(), 4);
    let none = Section::new(Cid::new(vec![0]), 100, 0);
    assert_eq!(none.read_data(&mut source).unwrap(), Vec::<u8>::new());
}

#[test]
fn source_seeks_and_reads() {
    let mut source = ByteSource::new(vec![1, 2, 3]);
    assert_eq!(source.remaining().to_vec(), vec![1, 2, 3]);
    assert_eq!(source.read_exact(2).unwrap(), vec![1, 2]);
    assert_eq!(source.seek_forward(5).unwrap(), 7);
    assert_eq!(source.remaining().len(), 0);
    assert_eq!(source.read_exact(1).unwrap_err(), IoFailure::UnexpectedEof);
    source.seek(u64::MAX);
    assert_eq!(source.seek_forward(1).unwrap_err(), IoFailure::InvalidInput);
    assert_eq!(source.stream_position(), u64::MAX);
}

#[test]
fn reader_refuses_a_block_of_an_unknown_codec() {
    let data = b"bytes".to_vec();
    let cid = libipld::Cid::new_v1(0x99, Code::Sha2_256.digest(&data));
    let mut reader = CarReader::new(ByteSource::new(car(&[cid], &[(cid, data.clone())]))).unwrap();
    assert_eq!(reader.read_section_data(&id(&cid)).unwrap(), data);
    assert_eq!(reader.ipld(&id(&cid)).unwrap_err().kind(), ErrorKind::Parsing);
}

#[test]
fn reader_refuses_an_identifier_that_cannot_be_read() {
    let found = Section::new(Cid::new(vec![9, 9]), 0, 1);
    let mut source = ByteSource::new(vec![1, 2, 3]);
    assert_eq!(found.ipld(&mut source).unwrap_err().kind(), ErrorKind::Parsing);
}

#[test]
fn a_block_that_declares_more_than_it_holds_is_refused_unread() {
    let hostile: Vec<Vec<u8>> = vec![
        vec![0x5b, 0xff, 0xff, 0xff, 0xff, 0xff, 0xff, 0xff, 0xff],
        vec![0x7b, 0xff, 0xff, 0xff, 0xff, 0xff, 0xff, 0xff, 0xff],
        vec![0x9b, 0x10, 0x00, 0x00, 0x00, 0x00, 0x00, 0x00, 0x00],
        vec![0xbb, 0x10, 0x00, 0x00, 0x00, 0x00, 0x00, 0x00, 0x00],
        vec![0x81, 0x5a, 0xff, 0xff, 0xff, 0xff],
        vec![0xa1, 0x7a, 0x7f, 0xff, 0xff, 0xff],
        vec![0x9f, 0x9b, 0x0f, 0xff, 0xff, 0xff, 0xff, 0xff, 0xff, 0xff],
    ];
    for data in hostile {
        let cid = libipld::Cid::new_v1(0x71, Code::Sha2_256.digest(&data));
        let bytes = car(&[cid], &[(cid, data.clone())]);
        let mut reader = CarReader::new(ByteSource::new(bytes)).unwrap();
        assert_eq!(reader.ipld(&id(&cid)).unwrap_err().kind(), ErrorKind::Parsing);
        assert_eq!(CarHeader::decode(&data).unwrap_err().kind(), ErrorKind::Parsing);
        let mut framed_header = framed(&data);
        framed_header.extend_from_slice(&[0; 4]);
        let err = CarReader::new(ByteSource::new(framed_header)).unwrap_err();
        assert_eq!(err.kind(), ErrorKind::Parsing);
    }
}

#[test]
fn a_block_of_bytes_is_not_looked_over_as_cbor() {
    let data = vec![0x5b, 0xff, 0xff, 0xff, 0xff, 0xff, 0xff, 0xff, 0xff];
    let a = raw_block(&data);
    let mut reader = CarReader::new(ByteSource::new(car(&[a.0], &[a.clone()]))).unwrap();
    assert_eq!(reader.ipld(&id(&a.0)).unwrap(), Node::Bytes(data));
}

#[test]
fn a_block_that_is_nested_too_deep_is_refused_unread() {
    let mut deep = vec![0x81; 128];
    deep.push(0x00);
    let cid = libipld::Cid::new_v1(0x71, Code::Sha2_256.digest(&deep));
    let mut reader = CarReader::new(ByteSource::new(car(&[cid], &[(cid, deep)]))).unwrap();
    assert_eq!(reader.ipld(&id(&cid)).unwrap_err().kind(), ErrorKind::Parsing);
    let mut fine = vec![0x81; 127];
    fine.push(0x00);
    let cid = libipld::Cid::new_v1(0x71, Code::Sha2_256.digest(&fine));
    let mut reader = CarReader::new(ByteSource::new(car(&[cid], &[(cid, fine)]))).unwrap();
    let mut node = reader.ipld(&id(&cid)).unwrap();
    let mut depth = 0;
    while let Node::List(mut items) = node {
        assert_eq!(items.len(), 1);
        node = items.pop().unwrap();
        depth += 1;
    }
    assert_eq!(depth, 127);
    assert_eq!(node, Node::Integer(0));
}
