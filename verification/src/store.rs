//! An in-memory chain store: the reference implementation of the
//! `ChainStore` contract. It keeps blocks in first-save order, one tip per
//! fork lineage, and a single canonical head pointer.

use vstd::prelude::*;

use crate::types::{
    has_block, hdr_of, header_for, sb_model, Block, BlockHash, BlockHeader, BlockView, ChainStore,
    Error, Lineage, Tip, TipView,
};

verus! {

/// A chain store backed by plain vectors. Operations never fail with a
/// storage error: the medium is process memory.
pub struct MemStore {
    head: Option<Tip>,
    tips: Vec<Tip>,
    blocks: Vec<Block>,
}

impl MemStore {
    /// An empty store: no head, no tips, no blocks.
    pub fn new() -> (r: MemStore)
        ensures
            r.inv(),
            r.head_view() is None,
            r.tips_view() == Seq::<TipView>::empty(),
            r.blocks_view() == Seq::<BlockView>::empty(),
    {
        let r = MemStore { head: None, tips: Vec::new(), blocks: Vec::new() };
        proof {
            assert(r.tips_view() =~= Seq::<TipView>::empty());
            assert(r.blocks_view() =~= Seq::<BlockView>::empty());
        }
        r
    }

    fn find_by_lineage(&self, l: &Lineage) -> (r: Option<usize>)
        ensures
            match r {
                Some(i) => i < self.tips@.len() && (#[trigger] self.tips@[i as int])@.lineage
                    == l@,
                None => forall|j: int|
                    0 <= j < self.tips@.len() ==> (#[trigger] self.tips@[j])@.lineage != l@,
            },
    {
        let mut i: usize = 0;
        while i < self.tips.len()
            invariant
                i <= self.tips@.len(),
                forall|j: int| 0 <= j < i ==> (#[trigger] self.tips@[j])@.lineage != l@,
            decreases self.tips@.len() - i,
        {
            if self.tips[i].lineage == *l {
                return Some(i);
            }
            i = i + 1;
        }
        None
    }
}

impl ChainStore for MemStore {
    open spec fn infallible(&self) -> bool {
        true
    }

    closed spec fn inv(&self) -> bool {
        &&& (self.head matches Some(t) ==> t.wf())
        &&& (forall|i: int| 0 <= i < self.tips@.len() ==> (#[trigger] self.tips@[i]).wf())
        &&& (forall|i: int| 0 <= i < self.blocks@.len() ==> (#[trigger] self.blocks@[i]).wf())
        &&& (forall|i: int, j: int|
            0 <= i < j < self.blocks@.len() ==> (#[trigger] self.blocks@[i]).id@ != (
            #[trigger] self.blocks@[j]).id@)
    }

    closed spec fn head_view(&self) -> Option<TipView> {
        match self.head {
            Some(t) => Some(t@),
            None => None,
        }
    }

    closed spec fn tips_view(&self) -> Seq<TipView> {
        self.tips@.map_values(|t: Tip| t@)
    }

    closed spec fn blocks_view(&self) -> Seq<BlockView> {
        self.blocks@.map_values(|b: Block| b@)
    }

    fn head(&self) -> (r: Result<Tip, Error>)
        ensures
            r matches Err(e) ==> e is NotFoundErr,
    {
        match &self.head {
            Some(t) => Ok(t.clone()),
            None => Err(Error::NotFoundErr),
        }
    }

    fn head_header(&self) -> (r: Result<BlockHeader, Error>)
        ensures
            r matches Err(Error::StorageErr(_)) ==> self.head_view() matches Some(hv)
                && !has_block(self.blocks_view(), hv.last),
    {
        match &self.head {
            None => Err(Error::NotFoundErr),
            Some(t) => match self.get_block_header(&t.last_block_h) {
                Ok(h) => Ok(h),
                Err(Error::NotFoundErr) => Err(
                    Error::StorageErr("the canonical head's header is missing".to_string()),
                ),
                Err(e) => Err(e),
            },
        }
    }

    fn get_block_header(&self, h: &BlockHash) -> (r: Result<BlockHeader, Error>)
        ensures
            r matches Err(e) ==> e is NotFoundErr,
    {
        let mut i: usize = 0;
        while i < self.blocks.len()
            invariant
                self.inv(),
                i <= self.blocks@.len(),
                forall|j: int| 0 <= j < i ==> (#[trigger] self.blocks@[j]).id@ != h@,
            decreases self.blocks@.len() - i,
        {
            if self.blocks[i].id == *h {
                let hdr = self.blocks[i].header.clone();
                proof {
                    let bv = self.blocks_view();
                    assert(bv[i as int] == self.blocks@[i as int]@);
                    assert(bv[i as int].id == h@);
                    assert(has_block(bv, h@));
                    let c = choose|c: int| 0 <= c < bv.len() && bv[c].id == h@;
                    assert(bv[c] == self.blocks@[c]@);
                    if c != i as int {
                        assert(self.blocks@[c].id@ == self.blocks@[i as int].id@);
                        assert(false);
                    }
                    assert(header_for(bv, h@) == Some(hdr_of(bv[i as int])));
                    assert(hdr@ =~= hdr_of(bv[i as int]));
                }
                return Ok(hdr);
            }
            i = i + 1;
        }
        proof {
            assert forall|j: int| 0 <= j < self.blocks_view().len() implies (
            #[trigger] self.blocks_view()[j]).id != h@ by {
                assert(self.blocks_view()[j] == self.blocks@[j]@);
            }
        }
        Err(Error::NotFoundErr)
    }

    fn tips(&self) -> (r: Result<Vec<Tip>, Error>)
        ensures
            r is Ok,
    {
        let mut v: Vec<Tip> = Vec::new();
        let mut i: usize = 0;
        while i < self.tips.len()
            invariant
                self.inv(),
                i <= self.tips@.len(),
                v@.len() == i,
                forall|k: int| 0 <= k < i ==> (#[trigger] v@[k])@ == self.tips@[k]@,
            decreases self.tips@.len() - i,
        {
            v.push(self.tips[i].clone());
            i = i + 1;
        }
        proof {
            assert(v@.map_values(|t: Tip| t@) =~= self.tips_view());
            assert forall|k: int| 0 <= k < v@.len() implies (#[trigger] v@[k]).wf() by {
                assert(v@[k]@ == self.tips@[k]@);
                assert(self.tips@[k].wf());
            }
        }
        Ok(v)
    }

    fn save_block(&mut self, b: &Block) -> (r: Result<(), Error>)
        ensures
            r is Ok,
    {
        match self.get_block_header(&b.id) {
            Ok(_) => {
                proof {
                    assert(self.blocks_view() == sb_model(self.blocks_view(), b@));
                }
                Ok(())
            },
            Err(Error::NotFoundErr) => {
                self.blocks.push(b.clone());
                proof {
                    assert(self.blocks@.drop_last() == old(self).blocks@);
                    assert(self.blocks_view() =~= old(self).blocks_view().push(b@));
                    assert(!has_block(old(self).blocks_view(), b@.id));
                    assert forall|i: int, j: int|
                        0 <= i < j < self.blocks@.len() implies (
                    #[trigger] self.blocks@[i]).id@ != (#[trigger] self.blocks@[j]).id@ by {
                        if j == self.blocks@.len() - 1 {
                            assert(old(self).blocks_view()[i] == old(self).blocks@[i]@);
                        }
                    }
                    assert(self.tips_view() =~= old(self).tips_view());
                }
                Ok(())
            },
            Err(e) => Err(e),
        }
    }

    fn save_head(&mut self, t: &Tip) -> (r: Result<(), Error>)
        ensures
            r is Ok,
    {
        self.head = Some(t.clone());
        proof {
            assert(self.blocks_view() =~= old(self).blocks_view());
            assert(self.tips_view() =~= old(self).tips_view());
        }
        Ok(())
    }

    fn save_tip(&mut self, t: &Tip) -> (r: Result<(), Error>)
        ensures
            r is Ok,
    {
        match self.find_by_lineage(&t.lineage) {
            Some(i) => {
                self.tips[i] = t.clone();
                proof {
                    let pre = old(self).tips_view();
                    let post = self.tips_view();
                    assert(self.tips@ == old(self).tips@.update(i as int, self.tips@[i as int]));
                    assert(post =~= pre.update(i as int, t@));
                    assert(post[i as int] == t@);
                    assert(post.contains(t@));
                    assert forall|j: int| 0 <= j < post.len() implies (#[trigger] post[j]) == t@
                        || pre.contains(post[j]) by {
                        if j != i as int {
                            assert(post[j] == pre[j]);
                        }
                    }
                    assert forall|j: int|
                        0 <= j < pre.len() && (#[trigger] pre[j]).lineage != t@.lineage implies post
                        .contains(pre[j]) by {
                        assert(pre[i as int] == old(self).tips@[i as int]@);
                        assert(j != i as int);
                        assert(post[j] == pre[j]);
                    }
                    assert(self.blocks_view() =~= old(self).blocks_view());
                }
                Ok(())
            },
            None => {
                self.tips.push(t.clone());
                proof {
                    let pre = old(self).tips_view();
                    let post = self.tips_view();
                    assert(self.tips@.drop_last() == old(self).tips@);
                    assert(post =~= pre.push(t@));
                    assert(post[post.len() - 1] == t@);
                    assert(post.contains(t@));
                    assert forall|j: int| 0 <= j < post.len() implies (#[trigger] post[j]) == t@
                        || pre.contains(post[j]) by {
                        if j < pre.len() {
                            assert(post[j] == pre[j]);
                        }
                    }
                    assert forall|j: int|
                        0 <= j < pre.len() && (#[trigger] pre[j]).lineage != t@.lineage implies post
                        .contains(pre[j]) by {
                        assert(post[j] == pre[j]);
                    }
                    assert(self.blocks_view() =~= old(self).blocks_view());
                }
                Ok(())
            },
        }
    }
}

} // verus!
