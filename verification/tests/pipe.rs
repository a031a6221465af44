use std::cell::Cell;

use chain::pipe::process_block;
use chain::store::MemStore;
use chain::types::{
    Block, BlockHash, BlockHeader, ChainAdapter, ChainStore, Error, Lineage, NoopAdapter, Tip,
};

struct CountingAdapter {
    accepted: Cell<u32>,
}

impl ChainAdapter for CountingAdapter {
    fn block_accepted(&self, _b: &Block) {
        self.accepted.set(self.accepted.get() + 1);
    }
}

fn h(b: u8) -> BlockHash {
    BlockHash::from_bytes(vec![b; 32])
}

fn blk(id: u8, parent: u8, height: u64) -> Block {
    Block { id: h(id), header: BlockHeader { height, previous: h(parent) } }
}

fn init_store(g: u8) -> MemStore {
    let mut s = MemStore::new();
    s.save_head(&Tip::new(h(g))).unwrap();
    s
}

#[test]
fn uninitialized_store_has_no_head() {
    let s = MemStore::new();
    assert!(matches!(s.head(), Err(Error::NotFoundErr)));
    assert!(matches!(s.head_header(), Err(Error::NotFoundErr)));
}

#[test]
fn process_without_head_fails_not_found() {
    let mut s = MemStore::new();
    let r = process_block(&mut s, &NoopAdapter {}, &blk(2, 1, 1));
    assert!(matches!(r, Err(Error::NotFoundErr)));
}

#[test]
fn head_header_missing_is_storage_error() {
    // A head pointer without the matching block is corruption, not absence.
    let s = init_store(1);
    assert!(matches!(s.head_header(), Err(Error::StorageErr(_))));
}

#[test]
fn simple_chain() {
    let mut s = init_store(1);
    let a = NoopAdapter {};
    process_block(&mut s, &a, &blk(2, 1, 1)).unwrap();
    process_block(&mut s, &a, &blk(3, 2, 2)).unwrap();
    process_block(&mut s, &a, &blk(4, 3, 3)).unwrap();
    let head = s.head().unwrap();
    assert_eq!(head.height, 3);
    assert_eq!(head.last_block_h, h(4));
    assert_eq!(head.prev_block_h, h(3));
    assert_eq!(head.lineage, Lineage::new());
    let hh = s.head_header().unwrap();
    assert_eq!(hh.height, 3);
    assert_eq!(hh.previous, h(3));
}

#[test]
fn orphan_block_fails_not_found() {
    let mut s = init_store(1);
    let a = NoopAdapter {};
    process_block(&mut s, &a, &blk(2, 1, 1)).unwrap();
    let r = process_block(&mut s, &a, &blk(9, 77, 2));
    assert!(matches!(r, Err(Error::NotFoundErr)));
    // No state was mutated.
    let head = s.head().unwrap();
    assert_eq!(head.height, 1);
    assert_eq!(head.last_block_h, h(2));
    assert!(matches!(s.get_block_header(&h(9)), Err(Error::NotFoundErr)));
}

#[test]
fn fork_then_reorg() {
    let mut s = init_store(1);
    let a = NoopAdapter {};
    // B1 extends genesis.
    process_block(&mut s, &a, &blk(2, 1, 1)).unwrap();
    assert_eq!(s.head().unwrap().height, 1);
    // B2a extends B1: canonical chain at height 2.
    process_block(&mut s, &a, &blk(3, 2, 2)).unwrap();
    let head_2a = s.head().unwrap();
    assert_eq!(head_2a.height, 2);
    assert_eq!(head_2a.last_block_h, h(3));
    // B2b also has parent B1: a new fork at equal height; per the
    // no-reorg-on-tie policy the head stays with B2a.
    let t2b = process_block(&mut s, &a, &blk(4, 2, 2)).unwrap();
    assert_eq!(t2b.height, 2);
    assert_eq!(t2b.last_block_h, h(4));
    assert_eq!(t2b.lineage.last_branch(), 1);
    let head = s.head().unwrap();
    assert_eq!(head.last_block_h, h(3));
    assert_eq!(head.height, 2);
    assert!(head.height >= t2b.height);
    // B3b extends the fork past the head: reorg.
    let t3b = process_block(&mut s, &a, &blk(5, 4, 3)).unwrap();
    assert_eq!(t3b.height, 3);
    let head = s.head().unwrap();
    assert_eq!(head.height, 3);
    assert_eq!(head.last_block_h, h(5));
    assert_eq!(head.prev_block_h, h(4));
    // The promoted fork kept the diverged lineage, distinct from B2a's.
    assert_eq!(head.lineage.last_branch(), 1);
    assert!(head.lineage != head_2a.lineage);
}

#[test]
fn sibling_forks_get_distinct_lineages() {
    let mut s = init_store(1);
    let a = NoopAdapter {};
    process_block(&mut s, &a, &blk(2, 1, 1)).unwrap();
    process_block(&mut s, &a, &blk(3, 2, 2)).unwrap();
    // Two distinct successors of B1 besides the canonical B2a.
    let t2b = process_block(&mut s, &a, &blk(4, 2, 2)).unwrap();
    let t2c = process_block(&mut s, &a, &blk(6, 2, 2)).unwrap();
    assert_eq!(t2b.height, 2);
    assert_eq!(t2c.height, 2);
    assert_eq!(t2b.lineage.last_branch(), 1);
    assert_eq!(t2c.lineage.last_branch(), 2);
    assert!(t2b.lineage != t2c.lineage);
    // Both lineages extend the ancestor's: same count and first element.
    let mut eb: Vec<u8> = Vec::new();
    t2b.lineage.write(&mut eb);
    let mut ec: Vec<u8> = Vec::new();
    t2c.lineage.write(&mut ec);
    assert_eq!(eb[..8], ec[..8]);
    assert_eq!(&eb[..8], &[0, 0, 0, 2, 0, 0, 0, 0]);
    // The head still dominates both fork tips.
    let head = s.head().unwrap();
    assert!(head.height >= t2b.height);
    assert!(head.height >= t2c.height);
}

#[test]
fn save_block_is_idempotent() {
    let mut s = MemStore::new();
    let b = blk(7, 6, 5);
    s.save_block(&b).unwrap();
    s.save_block(&b).unwrap();
    let hdr = s.get_block_header(&h(7)).unwrap();
    assert_eq!(hdr.height, 5);
    assert_eq!(hdr.previous, h(6));
}

#[test]
fn adapter_notified_once_per_accepted_block() {
    let mut s = init_store(1);
    let a = CountingAdapter { accepted: Cell::new(0) };
    process_block(&mut s, &a, &blk(2, 1, 1)).unwrap();
    assert_eq!(a.accepted.get(), 1);
    process_block(&mut s, &a, &blk(3, 2, 2)).unwrap();
    assert_eq!(a.accepted.get(), 2);
    // An orphan is not accepted, so no notification goes out.
    let r = process_block(&mut s, &a, &blk(9, 77, 2));
    assert!(matches!(r, Err(Error::NotFoundErr)));
    assert_eq!(a.accepted.get(), 2);
}

#[test]
fn save_tip_replaces_same_lineage() {
    let mut s = init_store(1);
    let a = NoopAdapter {};
    process_block(&mut s, &a, &blk(2, 1, 1)).unwrap();
    process_block(&mut s, &a, &blk(3, 2, 2)).unwrap();
    // Grow a side fork twice; it stays one fork, then overtakes the head.
    let t2b = process_block(&mut s, &a, &blk(4, 2, 2)).unwrap();
    assert_eq!(s.head().unwrap().last_block_h, h(3));
    let t3b = process_block(&mut s, &a, &blk(5, 4, 3)).unwrap();
    assert_eq!(t3b.lineage, t2b.lineage);
    assert_eq!(s.head().unwrap().last_block_h, h(5));
}
