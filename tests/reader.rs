use carfile::archive::create_archive;
use carfile::cid::{build_identifier, BLAKE2B_256, RAW};
use carfile::encoder::{Block, CarEncoder};
use carfile::header::ContainerHeader;
use fvm_ipld_car::CarReader;

#[test]
fn archive_reads_back_with_one_root_and_one_block() {
    let bytes = create_archive(10);
    let cid = build_identifier(&[1u8; 10], RAW, BLAKE2B_256).unwrap();
    let mut reader = CarReader::new(&bytes[..]).unwrap();
    assert_eq!(reader.header.version, 1);
    assert_eq!(reader.header.roots.len(), 1);
    assert_eq!(reader.header.roots[0].to_bytes(), cid.to_bytes());
    let block = reader.next().unwrap().unwrap();
    assert_eq!(block.cid.to_bytes(), cid.to_bytes());
    assert_eq!(block.data, vec![1u8; 10]);
    assert!(reader.next().is_none());
}

#[test]
fn empty_block_archive_reads_back() {
    let bytes = create_archive(0);
    let mut reader = CarReader::new(&bytes[..]).unwrap();
    let block = reader.next().unwrap().unwrap();
    assert_eq!(reader.header.roots[0], block.cid);
    assert!(block.data.is_empty());
    assert!(reader.next().is_none());
}

#[test]
fn streamed_blocks_read_back_in_order_once_each() {
    let payloads: Vec<Vec<u8>> = (0..5u8).map(|i| vec![i; i as usize * 3]).collect();
    let ids: Vec<_> = payloads
        .iter()
        .map(|p| build_identifier(p, RAW, BLAKE2B_256).unwrap())
        .collect();
    let mut enc = CarEncoder::new(&ContainerHeader {
        version: 1,
        roots: vec![ids[0].duplicate(), ids[4].duplicate()],
    });
    for (id, p) in ids.iter().zip(&payloads) {
        enc.receive_block(Block {
            cid: id.duplicate(),
            data: p.clone(),
        })
        .unwrap();
    }
    enc.close();
    let bytes = enc.take_output().unwrap();
    let reader = CarReader::new(&bytes[..]).unwrap();
    assert_eq!(reader.header.roots.len(), 2);
    assert_eq!(reader.header.roots[1].to_bytes(), ids[4].to_bytes());
    let blocks: Vec<_> = reader.map(|b| b.unwrap()).collect();
    assert_eq!(blocks.len(), 5);
    for (i, b) in blocks.iter().enumerate() {
        assert_eq!(b.cid.to_bytes(), ids[i].to_bytes());
        assert_eq!(b.data, payloads[i]);
    }
}
