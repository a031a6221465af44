use chain::types::{Block, BlockHash, BlockHeader, Error, Lineage, Tip};

fn h(b: u8) -> BlockHash {
    BlockHash::from_bytes(vec![b; 32])
}

#[test]
fn genesis_tip() {
    let t = Tip::new(h(0x11));
    assert_eq!(t.height, 0);
    assert_eq!(t.last_block_h, h(0x11));
    assert_eq!(t.prev_block_h, h(0x11));
    assert_eq!(t.lineage, Lineage::new());
    assert_eq!(t.lineage.last_branch(), 0);
}

#[test]
fn append_chain_heights() {
    let t0 = Tip::new(h(1));
    let t1 = t0.append(h(2));
    let t2 = t1.append(h(3));
    let t3 = t2.append(h(4));
    assert_eq!(t1.height, 1);
    assert_eq!(t2.height, 2);
    assert_eq!(t3.height, 3);
    assert_eq!(t3.last_block_h, h(4));
    assert_eq!(t3.prev_block_h, h(3));
}

#[test]
fn append_keeps_lineage() {
    let t0 = Tip::new(h(1));
    let t1 = t0.append(h(2));
    assert_eq!(t1.lineage, t0.lineage);
    assert_eq!(t1.lineage, Lineage::new());
}

#[test]
fn diverged_lineages_differ() {
    let l = Lineage::new();
    let a = l.diverge(1);
    let b = l.diverge(2);
    assert_eq!(a.last_branch(), 1);
    assert_eq!(b.last_branch(), 2);
    assert!(a != b);
    assert!(a != l);
}

#[test]
fn error_kinds_are_distinct() {
    let nf = Error::NotFoundErr;
    let st = Error::StorageErr(String::from("disk gone"));
    assert!(matches!(nf, Error::NotFoundErr));
    assert!(matches!(st, Error::StorageErr(_)));
}

#[test]
fn block_exposes_id_parent_height() {
    let b = Block { id: h(9), header: BlockHeader { height: 4, previous: h(8) } };
    assert_eq!(b.id, h(9));
    assert_eq!(b.header.previous, h(8));
    assert_eq!(b.header.height, 4);
}
