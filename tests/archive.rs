use carfile::archive::{create_archive, filled_block, FILL_BYTE};
use carfile::cid::{build_identifier, ContentIdentifier, BLAKE2B_256, DAG_CBOR, RAW};
use carfile::encoder::{Block, CarEncoder};
use carfile::error::CarError;
use carfile::frame::serialize_frame;
use carfile::header::{serialize_header, ContainerHeader};
use carfile::varint::push_varint;

const EMPTY_BLAKE2B_256: &str = "0e5751c026e543b2e8ab2eb06099daa1d1e5df47778f7787faab45cdf12fe3a8";

fn hex(b: &[u8]) -> String {
    b.iter().map(|x| format!("{:02x}", x)).collect()
}

fn raw_cid(data: &[u8]) -> ContentIdentifier {
    build_identifier(data, RAW, BLAKE2B_256).unwrap()
}

fn header_of(root: &ContentIdentifier) -> ContainerHeader {
    ContainerHeader {
        version: 1,
        roots: vec![root.duplicate()],
    }
}

fn raw_block(data: &[u8]) -> Block {
    Block {
        cid: raw_cid(data),
        data: data.to_vec(),
    }
}

fn roots_key() -> Vec<u8> {
    vec![0xa2, 0x65, b'r', b'o', b'o', b't', b's']
}

fn version_key() -> Vec<u8> {
    vec![0x67, b'v', b'e', b'r', b's', b'i', b'o', b'n']
}

/// The header bytes for one root, written out by hand.
fn one_root_header(cid: &ContentIdentifier) -> Vec<u8> {
    let mut rec = roots_key();
    rec.push(0x81);
    rec.extend_from_slice(&[0xd8, 0x2a, 0x58, 0x27, 0x00]);
    rec.extend_from_slice(&cid.to_bytes());
    rec.extend(version_key());
    rec.push(0x01);
    let mut out = vec![rec.len() as u8];
    out.extend(rec);
    out
}

#[test]
fn varint_values() {
    let cases: Vec<(u64, Vec<u8>)> = vec![
        (0, vec![0x00]),
        (1, vec![0x01]),
        (127, vec![0x7f]),
        (128, vec![0x80, 0x01]),
        (300, vec![0xac, 0x02]),
        (0xb220, vec![0xa0, 0xe4, 0x02]),
        (
            u64::MAX,
            vec![0xff, 0xff, 0xff, 0xff, 0xff, 0xff, 0xff, 0xff, 0xff, 0x01],
        ),
    ];
    for (n, want) in cases {
        let mut out = vec![0xee];
        push_varint(&mut out, n);
        assert_eq!(out[0], 0xee);
        assert_eq!(&out[1..], &want[..], "varint of {}", n);
    }
}

#[test]
fn identifier_of_empty_bytes() {
    let cid = raw_cid(&[]);
    assert_eq!(cid.codec, RAW);
    assert_eq!(cid.hash_code, BLAKE2B_256);
    assert_eq!(hex(&cid.digest), EMPTY_BLAKE2B_256);
}

#[test]
fn identifier_binary_form() {
    let cid = raw_cid(&[1u8; 10]);
    assert_eq!(cid.digest.len(), 32);
    let bytes = cid.to_bytes();
    assert_eq!(bytes.len(), 38);
    assert_eq!(&bytes[..6], &[0x01, 0x55, 0xa0, 0xe4, 0x02, 0x20]);
    assert_eq!(&bytes[6..], &cid.digest[..]);
}

#[test]
fn identifier_is_deterministic() {
    let data = b"the same bytes twice";
    let a = build_identifier(data, RAW, BLAKE2B_256);
    let b = build_identifier(data, RAW, BLAKE2B_256);
    assert_eq!(a, b);
    assert_ne!(raw_cid(b"one"), raw_cid(b"two"));
}

#[test]
fn identifier_content_type_is_kept() {
    let raw = raw_cid(b"x");
    let cbor = build_identifier(b"x", DAG_CBOR, BLAKE2B_256).unwrap();
    assert_eq!(cbor.codec, DAG_CBOR);
    assert_eq!(raw.digest, cbor.digest);
    assert_eq!(cbor.to_bytes()[1], 0x71);
}

#[test]
fn unsupported_hash_function() {
    assert_eq!(
        build_identifier(b"x", RAW, 0x12),
        Err(CarError::UnsupportedHashFunction)
    );
    // the hash function is checked before the content type
    assert_eq!(
        build_identifier(b"x", 0x70, 0x13),
        Err(CarError::UnsupportedHashFunction)
    );
}

#[test]
fn unsupported_content_type() {
    assert_eq!(
        build_identifier(b"x", 0x70, BLAKE2B_256),
        Err(CarError::UnsupportedContentType)
    );
}

#[test]
fn header_with_no_roots() {
    let got = serialize_header(1, &[]);
    let mut want = vec![0x11];
    want.extend(roots_key());
    want.push(0x80);
    want.extend(version_key());
    want.push(0x01);
    assert_eq!(got, want);
}

#[test]
fn header_with_one_root() {
    let cid = raw_cid(b"root");
    assert_eq!(serialize_header(1, &[cid.duplicate()]), one_root_header(&cid));
}

#[test]
fn header_with_large_version_and_many_roots() {
    let roots: Vec<ContentIdentifier> = (0..30u8).map(|i| raw_cid(&[i])).collect();
    let got = serialize_header(300, &roots);
    let mut rec = roots_key();
    rec.extend_from_slice(&[0x98, 30]);
    for r in &roots {
        rec.extend_from_slice(&[0xd8, 0x2a, 0x58, 0x27, 0x00]);
        rec.extend(r.to_bytes());
    }
    rec.extend(version_key());
    rec.extend_from_slice(&[0x19, 0x01, 0x2c]);
    let mut want = Vec::new();
    push_varint(&mut want, rec.len() as u64);
    want.extend(rec);
    assert_eq!(got, want);
}

#[test]
fn container_header_serializes_like_the_free_function() {
    let roots = vec![raw_cid(b"a"), raw_cid(b"b")];
    let header = ContainerHeader {
        version: 7,
        roots: roots.iter().map(|r| r.duplicate()).collect(),
    };
    assert_eq!(header.serialize(), serialize_header(7, &roots));
    assert_eq!(header.serialize()[header.serialize().len() - 1], 0x07);
}

#[test]
fn frame_layout() {
    let cid = raw_cid(&[1, 2, 3]);
    let got = serialize_frame(&cid, &[1, 2, 3]);
    let mut want = vec![41];
    want.extend(cid.to_bytes());
    want.extend_from_slice(&[1, 2, 3]);
    assert_eq!(got, want);
}

#[test]
fn frame_with_empty_payload() {
    let cid = raw_cid(&[]);
    let got = serialize_frame(&cid, &[]);
    assert_eq!(got[0], 38);
    assert_eq!(&got[1..], &cid.to_bytes()[..]);
}

#[test]
fn create_archive_of_ten_bytes() {
    let block = vec![1u8; 10];
    let cid = raw_cid(&block);
    let got = create_archive(10);
    let mut want = one_root_header(&cid);
    want.push(48);
    want.extend(cid.to_bytes());
    want.extend(block);
    assert_eq!(got.len(), 110);
    assert_eq!(got, want);
}

#[test]
fn create_archive_of_zero_bytes() {
    let cid = raw_cid(&[]);
    let got = create_archive(0);
    let mut want = one_root_header(&cid);
    want.push(38);
    want.extend(cid.to_bytes());
    assert_eq!(got, want);
    assert_eq!(hex(&cid.digest), EMPTY_BLAKE2B_256);
}

#[test]
fn filled_block_values() {
    assert_eq!(filled_block(0, FILL_BYTE), Vec::<u8>::new());
    assert_eq!(filled_block(4, 7), vec![7, 7, 7, 7]);
}

#[test]
fn encoder_keeps_arrival_order() {
    let blocks: Vec<Vec<u8>> = vec![b"first".to_vec(), b"second".to_vec(), b"first".to_vec()];
    let root = raw_cid(&blocks[0]);
    let mut enc = CarEncoder::new(&header_of(&root));
    for b in &blocks {
        assert_eq!(enc.receive_block(raw_block(b)), Ok(()));
    }
    enc.close();
    let got = enc.take_output().unwrap();
    let mut want = serialize_header(1, &[root]);
    for b in &blocks {
        want.extend(serialize_frame(&raw_cid(b), b));
    }
    assert_eq!(got, want);
}

#[test]
fn encoder_with_no_blocks_is_the_header() {
    let root = raw_cid(b"r");
    let mut enc = CarEncoder::new(&header_of(&root));
    enc.close();
    assert_eq!(enc.take_output().unwrap(), serialize_header(1, &[root]));
}

#[test]
fn encoder_refuses_blocks_after_close() {
    let root = raw_cid(b"r");
    let mut enc = CarEncoder::new(&header_of(&root));
    enc.close();
    assert_eq!(
        enc.receive_block(raw_block(b"late")),
        Err(CarError::ChannelClosed)
    );
    assert_eq!(enc.take_output().unwrap(), serialize_header(1, &[root]));
}

#[test]
fn encoder_output_waits_for_close() {
    let root = raw_cid(b"r");
    let mut enc = CarEncoder::new(&header_of(&root));
    assert_eq!(enc.receive_block(raw_block(b"r")), Ok(()));
    assert_eq!(enc.take_output(), None);
}
