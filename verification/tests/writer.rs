use carbites::cid::Cid;
use carbites::error::CarSplitterError;
use carbites::header::CarHeader;
use carbites::reader::CarReader;
use carbites::source::ByteSource;
use carbites::writer::CarWriter;
use libipld::multihash::Code;
use libipld::multihash::MultihashDigest;

fn raw_cid(data: &[u8]) -> Cid {
    Cid::new(libipld::Cid::new_v1(0x55, Code::Sha2_256.digest(data)).to_bytes())
}

#[test]
fn writer_test() {
    let root = raw_cid(b"root");
    let header = CarHeader::new(vec![root.clone()]);
    let head = header.encode().unwrap();
    let mut writer = CarWriter::new(header);
    assert!(writer.is_empty());
    assert_eq!(writer.len(), 0);
    writer.write_header().unwrap();
    assert_eq!(writer.len(), 1 + head.len());
    writer.write(&root, b"root").unwrap();
    let mut expected = vec![head.len() as u8];
    expected.extend_from_slice(&head);
    expected.push((root.as_bytes().len() + 4) as u8);
    expected.extend_from_slice(root.as_bytes());
    expected.extend_from_slice(b"root");
    assert_eq!(writer.len(), expected.len());
    assert!(!writer.is_empty());
    let bytes = writer.flush();
    assert_eq!(bytes, expected);
    assert!(writer.is_empty());
    assert_eq!(writer.flush(), Vec::<u8>::new());
}

#[test]
fn writer_frames_a_long_section_with_a_length_of_two_bytes() {
    let cid = Cid::new(vec![1, 2, 3]);
    let mut writer = CarWriter::new(CarHeader::new(vec![]));
    writer.write(&cid, &[7u8; 297]).unwrap();
    let bytes = writer.flush();
    assert_eq!(&bytes[..5], &[0xac, 0x02, 1, 2, 3]);
    assert_eq!(bytes.len(), 2 + 300);
}

#[test]
fn writer_frames_lengths_around_a_power_of_128() {
    let cid = Cid::new(vec![]);
    let mut writer = CarWriter::new(CarHeader::new(vec![]));
    writer.write(&cid, &[0u8; 127]).unwrap();
    assert_eq!(writer.flush()[..1], [0x7f]);
    writer.write(&cid, &[0u8; 128]).unwrap();
    assert_eq!(writer.flush()[..2], [0x80, 0x01]);
    writer.write(&cid, &[0u8; 16384]).unwrap();
    assert_eq!(writer.flush()[..3], [0x80, 0x80, 0x01]);
    writer.write(&cid, &[]).unwrap();
    assert_eq!(writer.flush(), vec![0]);
}

#[test]
fn writer_output_is_read_back_by_the_reader() {
    let root = raw_cid(b"root");
    let leaf = raw_cid(b"leaf");
    let mut writer = CarWriter::new(CarHeader::new(vec![root.clone()]));
    writer.write_header().unwrap();
    writer.write(&root, b"root").unwrap();
    writer.write(&leaf, b"leaf").unwrap();
    let mut reader = CarReader::new(ByteSource::new(writer.flush())).unwrap();
    assert_eq!(reader.header().roots, vec![root.clone()]);
    assert_eq!(reader.read_section_data(&root).unwrap(), b"root".to_vec());
    assert_eq!(reader.read_section_data(&leaf).unwrap(), b"leaf".to_vec());
}

#[test]
fn writer_refuses_a_header_whose_root_cannot_be_read() {
    let mut writer = CarWriter::new(CarHeader::new(vec![Cid::new(vec![9, 9])]));
    let err = writer.write_header().unwrap_err();
    assert!(matches!(err, CarSplitterError::Parsing(_)));
    assert!(writer.is_empty());
}
