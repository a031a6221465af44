use chain::types::{BlockHash, Error, Lineage, Tip};

fn h(b: u8) -> BlockHash {
    BlockHash::from_bytes(vec![b; 32])
}

#[test]
fn lineage_genesis_exact_bytes() {
    let l = Lineage::new();
    let mut out: Vec<u8> = Vec::new();
    l.write(&mut out);
    assert_eq!(out, vec![0, 0, 0, 1, 0, 0, 0, 0]);
}

#[test]
fn lineage_roundtrip() {
    let l = Lineage::new().diverge(7).diverge(0x01020304);
    let mut out: Vec<u8> = Vec::new();
    l.write(&mut out);
    assert_eq!(out.len(), 4 + 3 * 4);
    let (back, end) = Lineage::read(&out, 0).unwrap();
    assert_eq!(back, l);
    assert_eq!(back.last_branch(), 0x01020304);
    assert_eq!(end, out.len());
}

#[test]
fn lineage_truncated_rejected() {
    // A count of two elements, but only one present.
    let data: Vec<u8> = vec![0, 0, 0, 2, 0, 0, 0, 5];
    let r = Lineage::read(&data, 0);
    assert!(matches!(r, Err(Error::StorageErr(_))));
}

#[test]
fn lineage_short_header_rejected() {
    let data: Vec<u8> = vec![0, 0, 0];
    let r = Lineage::read(&data, 0);
    assert!(matches!(r, Err(Error::StorageErr(_))));
}

#[test]
fn tip_genesis_exact_bytes() {
    let t = Tip::new(h(0xAA));
    let mut out: Vec<u8> = Vec::new();
    t.write(&mut out);
    let mut expected: Vec<u8> = vec![0u8; 8];
    expected.extend_from_slice(&[0xAA; 32]);
    expected.extend_from_slice(&[0xAA; 32]);
    expected.extend_from_slice(&[0, 0, 0, 1, 0, 0, 0, 0]);
    assert_eq!(out, expected);
    assert_eq!(out.len(), 80);
}

#[test]
fn tip_roundtrip() {
    let t = Tip::new(h(1)).append(h(2)).append(h(3));
    let mut out: Vec<u8> = Vec::new();
    t.write(&mut out);
    let (back, end) = Tip::read(&out, 0).unwrap();
    assert_eq!(back, t);
    assert_eq!(back.height, 2);
    assert_eq!(back.last_block_h, h(3));
    assert_eq!(back.prev_block_h, h(2));
    assert_eq!(end, out.len());
}

#[test]
fn tip_roundtrip_with_forked_lineage() {
    let mut t = Tip::new(h(1)).append(h(2));
    t.lineage = t.lineage.diverge(3);
    let mut out: Vec<u8> = Vec::new();
    t.write(&mut out);
    let (back, _) = Tip::read(&out, 0).unwrap();
    assert_eq!(back, t);
    assert_eq!(back.lineage.last_branch(), 3);
}

#[test]
fn tip_truncated_rejected() {
    let t = Tip::new(h(4));
    let mut out: Vec<u8> = Vec::new();
    t.write(&mut out);
    out.truncate(79);
    let r = Tip::read(&out, 0);
    assert!(matches!(r, Err(Error::StorageErr(_))));
}

#[test]
fn tip_read_at_offset() {
    let t = Tip::new(h(5)).append(h(6));
    let mut out: Vec<u8> = vec![0xFF, 0xFF, 0xFF];
    t.write(&mut out);
    let (back, end) = Tip::read(&out, 3).unwrap();
    assert_eq!(back, t);
    assert_eq!(end, out.len());
}
