use carbites::cbor::cbor_is_safe;
use carbites::cbor::MAX_NESTING;
use carbites::reader::MAX_ALLOWED_SECTION_SIZE;
use libipld::cbor::DagCborCodec;
use libipld::multihash::Code;
use libipld::multihash::MultihashDigest;
use libipld::prelude::Codec;
use libipld::Ipld;
use std::collections::BTreeMap;

fn sample() -> Ipld {
    let cid = libipld::Cid::new_v1(0x55, Code::Sha2_256.digest(b"x"));
    let mut inner = BTreeMap::new();
    inner.insert("Hash".to_string(), Ipld::Link(cid));
    inner.insert("Name".to_string(), Ipld::String("a name".repeat(60)));
    inner.insert("Tsize".to_string(), Ipld::Integer(1 << 40));
    let mut map = BTreeMap::new();
    map.insert("Links".to_string(), Ipld::List(vec![Ipld::StringMap(inner); 30]));
    map.insert("Data".to_string(), Ipld::Bytes(vec![7; 70000]));
    map.insert("n".to_string(), Ipld::Integer(-70000));
    map.insert("b".to_string(), Ipld::Bool(true));
    map.insert("z".to_string(), Ipld::Null);
    map.insert("e".to_string(), Ipld::List(vec![]));
    map.insert("m".to_string(), Ipld::StringMap(BTreeMap::new()));
    Ipld::StringMap(map)
}

#[test]
fn what_the_codec_encodes_is_safe() {
    let bytes = DagCborCodec.encode(&sample()).unwrap();
    assert!(cbor_is_safe(&bytes));
    let back: Ipld = DagCborCodec.decode(&bytes).unwrap();
    assert_eq!(back, sample());
}

#[test]
fn what_is_cut_short_is_not_safe() {
    let bytes = DagCborCodec.encode(&sample()).unwrap();
    for cut in [0, 1, 2, 10, 100, bytes.len() - 1] {
        assert!(!cbor_is_safe(&bytes[..cut]));
        assert!(DagCborCodec.decode::<Ipld>(&bytes[..cut]).is_err());
    }
}

#[test]
fn bytes_behind_the_item_are_not_looked_at() {
    assert!(cbor_is_safe(&[0x00, 0x5b, 0xff]));
    assert!(cbor_is_safe(&[0x41, 0x09, 0xff]));
}

#[test]
fn single_items_are_safe() {
    let items: Vec<Vec<u8>> = vec![
        vec![0x00],
        vec![0x17],
        vec![0x18, 0xff],
        vec![0x19, 1, 2],
        vec![0x1a, 1, 2, 3, 4],
        vec![0x1b, 0xff, 0xff, 0xff, 0xff, 0xff, 0xff, 0xff, 0xff],
        vec![0x3b, 0xff, 0xff, 0xff, 0xff, 0xff, 0xff, 0xff, 0xff],
        vec![0x40],
        vec![0x42, 1, 2],
        vec![0x58, 2, 1, 2],
        vec![0x62, 0x61, 0x62],
        vec![0x80],
        vec![0xa0],
        vec![0x82, 0x01, 0x80],
        vec![0xa1, 0x61, 0x61, 0x01],
        vec![0x9f, 0x01, 0x02, 0xff],
        vec![0xbf, 0x61, 0x61, 0x01, 0xff],
        vec![0x9f, 0xff],
        vec![0xf4],
        vec![0xf5],
        vec![0xf6],
        vec![0xf7],
        vec![0xfa, 0, 0, 0, 0],
        vec![0xfb, 0, 0, 0, 0, 0, 0, 0, 0],
        vec![0xd8, 0x2a, 0x58, 0x02, 0x00, 0x01],
    ];
    for item in items {
        assert!(cbor_is_safe(&item), "{:x?}", item);
    }
}

#[test]
fn lengths_that_the_bytes_do_not_hold_are_not_safe() {
    let items: Vec<Vec<u8>> = vec![
        vec![],
        vec![0x18],
        vec![0x19, 1],
        vec![0x1b, 1, 2, 3, 4, 5, 6, 7],
        vec![0x41],
        vec![0x58, 3, 1, 2],
        vec![0x5b, 0xff, 0xff, 0xff, 0xff, 0xff, 0xff, 0xff, 0xff],
        vec![0x5b, 0, 0, 0, 0, 0, 0, 0, 1],
        vec![0x7a, 0x00, 0x00, 0x01, 0x00, 0x61],
        vec![0x81],
        vec![0x82, 0x01],
        vec![0x9b, 0x10, 0, 0, 0, 0, 0, 0, 0],
        vec![0x9a, 0xff, 0xff, 0xff, 0xff, 0x00],
        vec![0xa1, 0x61, 0x61],
        vec![0xbb, 0x80, 0, 0, 0, 0, 0, 0, 0],
        vec![0x9f, 0x01],
        vec![0xfa, 0, 0, 0],
        vec![0xd8],
        vec![0xd8, 0x2a],
    ];
    for item in items {
        assert!(!cbor_is_safe(&item), "{:x?}", item);
    }
}

#[test]
fn heads_that_the_codec_does_not_read_are_not_safe() {
    let items: Vec<Vec<u8>> = vec![
        vec![0x1c],
        vec![0x5f, 0x41, 0x00, 0xff],
        vec![0x7f, 0x61, 0x61, 0xff],
        vec![0xc0, 0x00],
        vec![0xd9, 0x00, 0x2a, 0x00],
        vec![0xf9, 0x00, 0x00],
        vec![0xe0],
        vec![0xff],
        vec![0x81, 0xff],
    ];
    for item in items {
        assert!(!cbor_is_safe(&item), "{:x?}", item);
        assert!(DagCborCodec.decode::<Ipld>(&item).is_err(), "{:x?}", item);
    }
}

#[test]
fn nesting_is_bounded() {
    assert_eq!(MAX_NESTING, 128);
    let mut fine = vec![0x81; MAX_NESTING - 1];
    fine.push(0x00);
    assert!(cbor_is_safe(&fine));
    let mut deep = vec![0x81; MAX_NESTING];
    deep.push(0x00);
    assert!(!cbor_is_safe(&deep));
    let mut open_ended = vec![0x9f; MAX_NESTING];
    open_ended.push(0x00);
    open_ended.extend_from_slice(&vec![0xff; MAX_NESTING]);
    assert!(!cbor_is_safe(&open_ended));
}

#[test]
fn bytes_longer_than_a_section_are_not_safe() {
    let mut bytes = vec![0x5a, 0x02, 0x00, 0x00, 0x00];
    bytes.extend_from_slice(&vec![0; MAX_ALLOWED_SECTION_SIZE]);
    assert!(!cbor_is_safe(&bytes));
    assert!(cbor_is_safe(&bytes[..MAX_ALLOWED_SECTION_SIZE]) == false);
    let mut fits = vec![0x5a, 0x01, 0xff, 0xff, 0xfb];
    fits.extend_from_slice(&vec![0; 0x01ff_fffb]);
    assert_eq!(fits.len(), MAX_ALLOWED_SECTION_SIZE);
    assert!(cbor_is_safe(&fits));
}
