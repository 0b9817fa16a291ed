use carbites::cid::Cid;
use carbites::error::ErrorKind;
use carbites::new_splitter;
use carbites::node::Node;
use carbites::reader::CarReader;
use carbites::source::ByteSource;
use carbites::treewalk::block_children;
use carbites::treewalk::extract_cid;
use carbites::treewalk::new_car;
use carbites::treewalk::root_children;
use carbites::treewalk::Parent;
use carbites::treewalk::TreewalkSplitter;
use carbites::CarSplitter;
use carbites::Strategy;
use integer_encoding::VarInt;
use libipld::cbor::DagCborCodec;
use libipld::multihash::Code;
use libipld::multihash::MultihashDigest;
use libipld::prelude::Codec;
use libipld::Ipld;
use std::collections::BTreeMap;

type Block = (libipld::Cid, Vec<u8>);

fn raw_block(data: &[u8]) -> Block {
    (libipld::Cid::new_v1(0x55, Code::Sha2_256.digest(data)), data.to_vec())
}

fn cbor(value: &Ipld) -> Block {
    let data = DagCborCodec.encode(value).unwrap();
    (libipld::Cid::new_v1(0x71, Code::Sha2_256.digest(&data)), data)
}

fn map_of(entries: Vec<(&str, Ipld)>) -> Ipld {
    let mut map = BTreeMap::new();
    for (key, value) in entries {
        map.insert(key.to_string(), value);
    }
    Ipld::StringMap(map)
}

fn node_block(links: &[libipld::Cid]) -> Block {
    let entries = links.iter().map(|c| map_of(vec![("Hash", Ipld::Link(*c))])).collect();
    cbor(&map_of(vec![("Links", Ipld::List(entries))]))
}

fn header_bytes(roots: &[libipld::Cid]) -> Vec<u8> {
    let roots = roots.iter().map(|c| Ipld::Link(*c)).collect();
    DagCborCodec
        .encode(&map_of(vec![("roots", Ipld::List(roots)), ("version", Ipld::Integer(1))]))
        .unwrap()
}

fn framed(bytes: &[u8]) -> Vec<u8> {
    let mut out = bytes.len().encode_var_vec();
    out.extend_from_slice(bytes);
    out
}

fn section(block: &Block) -> Vec<u8> {
    let mut body = block.0.to_bytes();
    body.extend_from_slice(&block.1);
    framed(&body)
}

fn car(roots: &[libipld::Cid], blocks: &[&Block]) -> Vec<u8> {
    let mut out = framed(&header_bytes(roots));
    for block in blocks {
        out.extend_from_slice(&section(block));
    }
    out
}

fn id(cid: &libipld::Cid) -> Cid {
    Cid::new(cid.to_bytes())
}

fn chunks_of(bytes: Vec<u8>, target_size: usize) -> Vec<Vec<u8>> {
    let mut splitter = TreewalkSplitter::new(ByteSource::new(bytes), target_size).unwrap();
    let mut chunks = Vec::new();
    while let Some(chunk) = splitter.next_chunk().unwrap() {
        chunks.push(chunk);
        assert!(chunks.len() < 1000);
    }
    assert_eq!(splitter.next_chunk().unwrap(), None);
    chunks
}

fn open_error(bytes: Vec<u8>) -> ErrorKind {
    TreewalkSplitter::new(ByteSource::new(bytes), 1024).unwrap_err().kind()
}

#[test]
fn one_chunk_when_everything_fits() {
    let a = raw_block(&[1u8; 40]);
    let b = raw_block(&[2u8; 40]);
    let r = node_block(&[a.0, b.0]);
    let chunks = chunks_of(car(&[r.0], &[&r, &a, &b]), 1 << 20);
    assert_eq!(chunks, vec![car(&[r.0], &[&r, &a, &b])]);
}

#[test]
fn two_chunks_when_the_first_child_fills_the_archive() {
    let a = raw_block(&[1u8; 100]);
    let b = raw_block(&[2u8; 10]);
    let r = node_block(&[a.0, b.0]);
    let seeded = car(&[r.0], &[&r]).len();
    let chunks = chunks_of(car(&[r.0], &[&r, &a, &b]), seeded + 50);
    assert_eq!(chunks, vec![car(&[r.0], &[&r, &a]), car(&[r.0], &[&r, &b])]);
}

#[test]
fn the_block_that_fills_an_archive_is_written_into_it() {
    let a = raw_block(&[1u8; 40]);
    let b = raw_block(&[2u8; 40]);
    let r = node_block(&[a.0, b.0]);
    let with_a = car(&[r.0], &[&r, &a]).len();
    let chunks = chunks_of(car(&[r.0], &[&r, &a, &b]), with_a + 39);
    assert_eq!(chunks, vec![car(&[r.0], &[&r, &a, &b]), car(&[r.0], &[&r])]);
    let chunks = chunks_of(car(&[r.0], &[&r, &a, &b]), with_a + 40);
    assert_eq!(chunks, vec![car(&[r.0], &[&r, &a, &b])]);
}

#[test]
fn the_threshold_counts_the_bytes_of_the_block_alone() {
    let a = raw_block(&[1u8; 40]);
    let r = node_block(&[a.0]);
    let seeded = car(&[r.0], &[&r]).len();
    let chunks = chunks_of(car(&[r.0], &[&r, &a]), seeded + 40);
    assert_eq!(chunks, vec![car(&[r.0], &[&r, &a])]);
    let chunks = chunks_of(car(&[r.0], &[&r, &a]), seeded + 39);
    assert_eq!(chunks, vec![car(&[r.0], &[&r, &a]), car(&[r.0], &[&r])]);
}

#[test]
fn a_leaf_root_gives_one_chunk_whatever_the_target() {
    let r = raw_block(b"just some bytes");
    for target_size in [0, 1, 20, 1 << 30, usize::MAX] {
        let chunks = chunks_of(car(&[r.0], &[&r]), target_size);
        assert_eq!(chunks, vec![car(&[r.0], &[&r])]);
    }
}

#[test]
fn a_root_without_children_gives_one_chunk() {
    let r = node_block(&[]);
    let chunks = chunks_of(car(&[r.0], &[&r]), 0);
    assert_eq!(chunks, vec![car(&[r.0], &[&r])]);
}

#[test]
fn children_are_visited_before_siblings() {
    let c = raw_block(b"c");
    let d = raw_block(b"d");
    let b = raw_block(b"b");
    let a = node_block(&[c.0, d.0]);
    let r = node_block(&[a.0, b.0]);
    let input = car(&[r.0], &[&b, &d, &c, &a, &r]);
    let chunks = chunks_of(input, 1 << 20);
    assert_eq!(chunks, vec![car(&[r.0], &[&r, &a, &c, &d, &b])]);
}

#[test]
fn every_chunk_starts_with_the_ancestors_of_its_blocks() {
    let c = raw_block(b"c");
    let d = raw_block(b"d");
    let b = raw_block(b"b");
    let a = node_block(&[c.0, d.0]);
    let r = node_block(&[a.0, b.0]);
    let chunks = chunks_of(car(&[r.0], &[&r, &a, &b, &c, &d]), 0);
    let expected = vec![
        car(&[r.0], &[&r, &a]),
        car(&[r.0], &[&r, &a, &c]),
        car(&[r.0], &[&r, &a, &d]),
        car(&[r.0], &[&r, &a, &b]),
        car(&[r.0], &[&r]),
    ];
    assert_eq!(chunks, expected);
}

#[test]
fn a_block_that_is_linked_twice_is_written_twice() {
    let a = raw_block(b"a");
    let r = node_block(&[a.0, a.0]);
    let chunks = chunks_of(car(&[r.0], &[&r, &a]), 1 << 20);
    assert_eq!(chunks, vec![car(&[r.0], &[&r, &a, &a])]);
}

#[test]
fn the_chunks_together_hold_the_blocks_below_the_root() {
    let leaves: Vec<Block> = (0u8..6).map(|i| raw_block(&[i; 50])).collect();
    let left = node_block(&[leaves[0].0, leaves[1].0, leaves[2].0]);
    let right = node_block(&[leaves[3].0, leaves[4].0]);
    let r = node_block(&[left.0, right.0, leaves[5].0]);
    let stray = raw_block(b"not below the root");
    let mut blocks: Vec<&Block> = leaves.iter().collect();
    blocks.extend([&left, &right, &r, &stray]);
    let input = car(&[r.0], &blocks);
    for target_size in [0, 300, 400, 600, 1 << 20] {
        let chunks = chunks_of(input.clone(), target_size);
        let mut seen: BTreeMap<Vec<u8>, Vec<u8>> = BTreeMap::new();
        for chunk in &chunks {
            assert!(!chunk.is_empty());
            let mut reader = CarReader::new(ByteSource::new(chunk.clone())).unwrap();
            assert_eq!(reader.header().roots, vec![id(&r.0)]);
            assert_eq!(reader.sections[0].cid(), id(&r.0));
            let cids: Vec<Cid> = reader.sections.iter().map(|s| s.cid()).collect();
            for (at, cid) in cids.iter().enumerate().skip(1) {
                let mut has_parent = false;
                for earlier in &cids[..at] {
                    let node = reader.ipld(earlier).unwrap();
                    let links = block_children(&node).unwrap();
                    has_parent = has_parent || links.contains(cid);
                }
                assert!(has_parent);
            }
            for cid in &cids {
                let data = reader.read_section_data(cid).unwrap();
                seen.insert(cid.as_bytes().to_vec(), data);
            }
        }
        let mut expected: BTreeMap<Vec<u8>, Vec<u8>> = BTreeMap::new();
        for block in leaves.iter().chain([&left, &right, &r]) {
            expected.insert(block.0.to_bytes(), block.1.clone());
        }
        assert_eq!(seen, expected);
    }
}

#[test]
fn a_chunk_exceeds_the_target_by_at_most_its_last_section() {
    let leaves: Vec<Block> = (0u8..8).map(|i| raw_block(&[i; 64])).collect();
    let cids: Vec<libipld::Cid> = leaves.iter().map(|b| b.0).collect();
    let r = node_block(&cids);
    let mut blocks: Vec<&Block> = vec![&r];
    blocks.extend(leaves.iter());
    let seeded = car(&[r.0], &[&r]).len();
    let overhead = section(&leaves[0]).len() - 64;
    for target_size in [seeded, seeded + 100, seeded + 250] {
        for chunk in chunks_of(car(&[r.0], &blocks), target_size) {
            assert!(chunk.len() <= target_size + overhead + section(&leaves[0]).len());
        }
    }
}

#[test]
fn an_archive_with_two_roots_is_refused() {
    let a = raw_block(b"a");
    let b = raw_block(b"b");
    assert_eq!(open_error(car(&[a.0, b.0], &[&a, &b])), ErrorKind::InvalidFile);
}

#[test]
fn a_root_that_is_not_indexed_is_an_invalid_section() {
    let a = raw_block(b"a");
    let b = raw_block(b"b");
    assert_eq!(open_error(car(&[a.0], &[&b])), ErrorKind::InvalidSection);
}

#[test]
fn a_root_that_is_neither_map_nor_bytes_is_an_invalid_file() {
    let r = cbor(&Ipld::Integer(5));
    assert_eq!(open_error(car(&[r.0], &[&r])), ErrorKind::InvalidFile);
    let r = cbor(&Ipld::List(vec![]));
    assert_eq!(open_error(car(&[r.0], &[&r])), ErrorKind::InvalidFile);
}

#[test]
fn a_root_map_without_a_list_of_links_is_a_parsing_error() {
    let r = cbor(&map_of(vec![("Data", Ipld::Integer(5))]));
    assert_eq!(open_error(car(&[r.0], &[&r])), ErrorKind::Parsing);
    let r = cbor(&map_of(vec![("Links", Ipld::Integer(5))]));
    assert_eq!(open_error(car(&[r.0], &[&r])), ErrorKind::Parsing);
}

#[test]
fn a_link_of_the_wrong_shape_fails_by_its_kind() {
    let r = cbor(&map_of(vec![("Links", Ipld::List(vec![map_of(vec![])]))]));
    assert_eq!(open_error(car(&[r.0], &[&r])), ErrorKind::Parsing);
    let entry = map_of(vec![("Hash", Ipld::Integer(1))]);
    let r = cbor(&map_of(vec![("Links", Ipld::List(vec![entry]))]));
    assert_eq!(open_error(car(&[r.0], &[&r])), ErrorKind::InvalidFile);
    let r = cbor(&map_of(vec![("Links", Ipld::List(vec![Ipld::Integer(1)]))]));
    assert_eq!(open_error(car(&[r.0], &[&r])), ErrorKind::Parsing);
}

#[test]
fn a_child_that_is_not_indexed_fails_the_walk() {
    let a = raw_block(b"a");
    let r = node_block(&[a.0]);
    let mut splitter = TreewalkSplitter::new(ByteSource::new(car(&[r.0], &[&r])), 10).unwrap();
    assert_eq!(splitter.next_chunk().unwrap_err().kind(), ErrorKind::InvalidSection);
}

#[test]
fn a_child_whose_links_are_no_list_fails_the_walk() {
    let a = cbor(&map_of(vec![("Links", Ipld::Bool(true))]));
    let r = node_block(&[a.0]);
    let input = car(&[r.0], &[&r, &a]);
    let mut splitter = TreewalkSplitter::new(ByteSource::new(input), 10).unwrap();
    assert_eq!(splitter.next_chunk().unwrap_err().kind(), ErrorKind::Parsing);
}

#[test]
fn a_child_that_is_no_map_is_a_leaf() {
    let a = cbor(&Ipld::Integer(3));
    let r = node_block(&[a.0]);
    let chunks = chunks_of(car(&[r.0], &[&r, &a]), 1 << 20);
    assert_eq!(chunks, vec![car(&[r.0], &[&r, &a])]);
}

#[test]
fn new_splitter_walks_the_tree() {
    let a = raw_block(b"a");
    let r = node_block(&[a.0]);
    let input = ByteSource::new(car(&[r.0], &[&r, &a]));
    let mut splitter = new_splitter(Strategy::Treewalk, input, 1 << 20).unwrap();
    assert_eq!(splitter.next_chunk().unwrap(), Some(car(&[r.0], &[&r, &a])));
    assert_eq!(splitter.next_chunk().unwrap(), None);
    assert_eq!(splitter.next().unwrap(), None);
}

#[test]
fn new_car_holds_the_header_and_the_ancestors() {
    let a = node_block(&[]);
    let r = node_block(&[a.0]);
    let parents = vec![Parent::new(r.1.clone(), id(&r.0)), Parent::new(a.1.clone(), id(&a.0))];
    let mut writer = new_car(&id(&r.0), &parents).unwrap();
    assert_eq!(writer.flush(), car(&[r.0], &[&r, &a]));
}

#[test]
fn links_are_read_from_the_field_hash() {
    let target = id(&raw_block(b"x").0);
    let entry = Node::StringMap(vec![("Hash".to_string(), Node::Link(target.clone()))]);
    assert_eq!(extract_cid(&entry).unwrap(), target);
    let wrong = Node::StringMap(vec![("Hash".to_string(), Node::Null)]);
    assert_eq!(extract_cid(&wrong).unwrap_err().kind(), ErrorKind::InvalidFile);
    assert_eq!(extract_cid(&Node::Null).unwrap_err().kind(), ErrorKind::Parsing);
    let node = Node::StringMap(vec![("Links".to_string(), Node::List(vec![entry]))]);
    assert_eq!(block_children(&node).unwrap(), vec![target.clone()]);
    assert_eq!(root_children(&node).unwrap(), vec![target]);
    assert_eq!(block_children(&Node::Integer(1)).unwrap(), vec![]);
    assert_eq!(root_children(&Node::Bytes(vec![1])).unwrap(), vec![]);
    assert_eq!(root_children(&Node::Integer(1)).unwrap_err().kind(), ErrorKind::InvalidFile);
}
