//! Base types for the chain pipeline: block identifiers, fork lineages,
//! fork tips, the error model, and the store / adapter contracts.

use vstd::prelude::*;

verus! {

/// Identifier of a block: an opaque fixed-size digest of 32 bytes.
#[derive(Debug)]
pub struct BlockHash {
    pub bytes: Vec<u8>,
}

impl View for BlockHash {
    type V = Seq<u8>;

    open spec fn view(&self) -> Seq<u8> {
        self.bytes@
    }
}

impl BlockHash {
    /// A block identifier holds exactly 32 bytes.
    pub open spec fn wf(&self) -> bool {
        self@.len() == 32
    }

    pub fn from_bytes(bytes: Vec<u8>) -> (r: BlockHash)
        requires
            bytes@.len() == 32,
        ensures
            r@ == bytes@,
            r.wf(),
    {
        BlockHash { bytes }
    }
}

impl Clone for BlockHash {
    fn clone(&self) -> (r: Self)
        ensures
            r@ == self@,
    {
        let c = BlockHash { bytes: self.bytes.clone() };
        proof {
            assert(c.bytes@ =~= self.bytes@);
        }
        c
    }
}

impl PartialEq for BlockHash {
    fn eq(&self, other: &BlockHash) -> (r: bool) {
        let r = self.bytes == other.bytes;
        proof {
            if r {
                assert(self.bytes@ =~= other.bytes@);
            }
        }
        r
    }
}

impl vstd::std_specs::cmp::PartialEqSpecImpl for BlockHash {
    open spec fn obeys_eq_spec() -> bool {
        true
    }

    open spec fn eq_spec(&self, other: &BlockHash) -> bool {
        self@ == other@
    }
}

/// The lineage of a fork, defined as a series of branch numbers. Each new
/// branch gets a new number that gets added to a fork's ancestry to form a
/// new fork.
#[derive(Debug)]
pub struct Lineage(pub(crate) Vec<u32>);

impl View for Lineage {
    type V = Seq<u32>;

    closed spec fn view(&self) -> Seq<u32> {
        self.0@
    }
}

impl Lineage {
    /// The mathematical value of a lineage is exactly its branch-number
    /// vector.
    pub(crate) proof fn lemma_view(&self)
        ensures
            self@ == self.0@,
    {
    }

    /// A lineage always holds at least one branch number, and stays small
    /// enough for its length to be written as a 32-bit count.
    pub open spec fn wf(&self) -> bool {
        1 <= self@.len() && self@.len() <= u32::MAX
    }

    /// New lineage initialized just with branch 0.
    pub fn new() -> (r: Lineage)
        ensures
            r@ == seq![0u32],
            r.wf(),
    {
        let mut v: Vec<u32> = Vec::new();
        v.push(0u32);
        proof {
            assert(v@ =~= seq![0u32]);
        }
        Lineage(v)
    }

    /// The last branch that was added to the lineage. Also the only branch
    /// that's unique to this lineage.
    pub fn last_branch(&self) -> (r: u32)
        requires
            self@.len() > 0,
        ensures
            r == self@.last(),
    {
        self.0[self.0.len() - 1]
    }

    /// The lineage of a fork that diverges from this one: the same branch
    /// numbers with one fresh number appended.
    pub fn diverge(&self, branch: u32) -> (r: Lineage)
        requires
            self@.len() < u32::MAX,
        ensures
            r@ == self@.push(branch),
            self@.len() >= 1 ==> r.wf(),
    {
        let mut v = self.0.clone();
        v.push(branch);
        proof {
            assert(v@ =~= self@.push(branch));
        }
        Lineage(v)
    }
}

impl Clone for Lineage {
    fn clone(&self) -> (r: Self)
        ensures
            r@ == self@,
    {
        let c = Lineage(self.0.clone());
        proof {
            assert(c.0@ =~= self.0@);
        }
        c
    }
}

impl PartialEq for Lineage {
    fn eq(&self, other: &Lineage) -> (r: bool) {
        let r = self.0 == other.0;
        proof {
            if r {
                assert(self.0@ =~= other.0@);
            }
        }
        r
    }
}

impl vstd::std_specs::cmp::PartialEqSpecImpl for Lineage {
    open spec fn obeys_eq_spec() -> bool {
        true
    }

    open spec fn eq_spec(&self, other: &Lineage) -> bool {
        self@ == other@
    }
}

/// Mathematical value of a `Tip`.
#[verifier::ext_equal]
pub struct TipView {
    pub height: u64,
    pub last: Seq<u8>,
    pub prev: Seq<u8>,
    pub lineage: Seq<u32>,
}

/// Well-formedness of a tip value: 32-byte identifiers and a non-empty
/// lineage whose length fits a 32-bit count.
pub open spec fn tip_view_wf(t: TipView) -> bool {
    &&& t.last.len() == 32
    &&& t.prev.len() == 32
    &&& 1 <= t.lineage.len()
    &&& t.lineage.len() <= u32::MAX
}

/// The tip a chain starts from: height zero, head and parent both the
/// genesis identifier, lineage `[0]`.
pub open spec fn genesis_view(g: Seq<u8>) -> TipView {
    TipView { height: 0, last: g, prev: g, lineage: seq![0u32] }
}

/// The tip derived from `t` by appending one block: height one more, head
/// the new block, parent the old head, lineage unchanged.
pub open spec fn append_view(t: TipView, id: Seq<u8>) -> TipView {
    TipView { height: (t.height + 1) as u64, last: id, prev: t.last, lineage: t.lineage }
}

/// The tip of a fork: a handle to the fork's ancestry from its leaf in the
/// blockchain tree. References both the lineage of the fork as well as its
/// max height and its latest and previous blocks for convenience.
#[derive(Debug)]
pub struct Tip {
    /// Height of the tip (max height of the fork).
    pub height: u64,
    /// Last block pushed to the fork.
    pub last_block_h: BlockHash,
    /// Block previous to last.
    pub prev_block_h: BlockHash,
    /// Lineage in branch numbers of the fork.
    pub lineage: Lineage,
}

impl View for Tip {
    type V = TipView;

    open spec fn view(&self) -> TipView {
        TipView {
            height: self.height,
            last: self.last_block_h@,
            prev: self.prev_block_h@,
            lineage: self.lineage@,
        }
    }
}

impl Tip {
    pub open spec fn wf(&self) -> bool {
        tip_view_wf(self@)
    }

    /// Creates a new tip at height zero and the provided genesis hash.
    pub fn new(gbh: BlockHash) -> (r: Tip)
        ensures
            r@ == genesis_view(gbh@),
            gbh.wf() ==> r.wf(),
    {
        let prev = gbh.clone();
        let r = Tip { height: 0, last_block_h: gbh, prev_block_h: prev, lineage: Lineage::new() };
        proof {
            assert(r@ =~= genesis_view(r.last_block_h@));
        }
        r
    }

    /// Append a new block hash to this tip, returning a new updated tip.
    /// The lineage is carried over unchanged: extending a fork never
    /// creates a new branch.
    pub fn append(&self, bh: BlockHash) -> (r: Tip)
        requires
            self.height < u64::MAX,
        ensures
            r@ == append_view(self@, bh@),
            self.wf() && bh.wf() ==> r.wf(),
    {
        let r = Tip {
            height: self.height + 1,
            last_block_h: bh,
            prev_block_h: self.last_block_h.clone(),
            lineage: self.lineage.clone(),
        };
        proof {
            assert(r@ =~= append_view(self@, r.last_block_h@));
        }
        r
    }
}

impl Clone for Tip {
    fn clone(&self) -> (r: Self)
        ensures
            r@ == self@,
    {
        let c = Tip {
            height: self.height,
            last_block_h: self.last_block_h.clone(),
            prev_block_h: self.prev_block_h.clone(),
            lineage: self.lineage.clone(),
        };
        proof {
            assert(c@ =~= self@);
        }
        c
    }
}

impl PartialEq for Tip {
    fn eq(&self, other: &Tip) -> (r: bool) {
        let r = self.height == other.height && self.last_block_h == other.last_block_h
            && self.prev_block_h == other.prev_block_h && self.lineage == other.lineage;
        proof {
            if r {
                assert(self@ =~= other@);
            }
        }
        r
    }
}

impl vstd::std_specs::cmp::PartialEqSpecImpl for Tip {
    open spec fn obeys_eq_spec() -> bool {
        true
    }

    open spec fn eq_spec(&self, other: &Tip) -> bool {
        self@ == other@
    }
}

/// What this layer can go wrong with: either the requested datum does not
/// exist, or the storage medium itself failed.
#[derive(Debug)]
pub enum Error {
    /// Couldn't find what we were looking for.
    NotFoundErr,
    /// Error generated by the underlying storage layer.
    StorageErr(String),
}

/// Mathematical value of a `BlockHeader`.
#[verifier::ext_equal]
pub struct HeaderView {
    pub height: u64,
    pub prev: Seq<u8>,
}

/// The part of a block header this core reads: the block's height and the
/// identifier of the previous block on its chain.
#[derive(Debug)]
pub struct BlockHeader {
    /// Height of the block, counted from genesis inclusive.
    pub height: u64,
    /// Identifier of the block immediately preceding this one.
    pub previous: BlockHash,
}

impl View for BlockHeader {
    type V = HeaderView;

    open spec fn view(&self) -> HeaderView {
        HeaderView { height: self.height, prev: self.previous@ }
    }
}

impl BlockHeader {
    /// A header's parent identifier holds 32 bytes; heights stay below the
    /// width's maximum so that one more block can always be counted.
    pub open spec fn wf(&self) -> bool {
        self@.prev.len() == 32 && self@.height < u64::MAX
    }
}

impl Clone for BlockHeader {
    fn clone(&self) -> (r: Self)
        ensures
            r@ == self@,
    {
        let c = BlockHeader { height: self.height, previous: self.previous.clone() };
        proof {
            assert(c@ =~= self@);
        }
        c
    }
}

/// Mathematical value of a `Block`.
#[verifier::ext_equal]
pub struct BlockView {
    pub id: Seq<u8>,
    pub height: u64,
    pub prev: Seq<u8>,
}

/// The part of a validated block this core reads: its own identifier and
/// its header. Contents are opaque to the chain pipeline.
#[derive(Debug)]
pub struct Block {
    /// Identifier of this block.
    pub id: BlockHash,
    /// Header of this block.
    pub header: BlockHeader,
}

impl View for Block {
    type V = BlockView;

    open spec fn view(&self) -> BlockView {
        BlockView { id: self.id@, height: self.header.height, prev: self.header.previous@ }
    }
}

impl Block {
    pub open spec fn wf(&self) -> bool {
        self.id.wf() && self.header.wf()
    }
}

impl Clone for Block {
    fn clone(&self) -> (r: Self)
        ensures
            r@ == self@,
    {
        let c = Block { id: self.id.clone(), header: self.header.clone() };
        proof {
            assert(c@ =~= self@);
        }
        c
    }
}

pub open spec fn hdr_of(b: BlockView) -> HeaderView {
    HeaderView { height: b.height, prev: b.prev }
}

/// Whether some stored block carries the identifier `id`.
pub open spec fn has_block(bs: Seq<BlockView>, id: Seq<u8>) -> bool {
    exists|i: int| 0 <= i < bs.len() && bs[i].id == id
}

/// The header of the stored block whose identifier is `id`, if any. A store
/// keeps at most one block per identifier, so the pick is determined.
pub open spec fn header_for(bs: Seq<BlockView>, id: Seq<u8>) -> Option<HeaderView> {
    if has_block(bs, id) {
        Some(hdr_of(bs[choose|i: int| 0 <= i < bs.len() && bs[i].id == id]))
    } else {
        None
    }
}

/// The identifier of the parent of the stored block `id`, if that block is
/// stored.
pub open spec fn parent_of(bs: Seq<BlockView>, id: Seq<u8>) -> Option<Seq<u8>> {
    match header_for(bs, id) {
        Some(h) => Some(h.prev),
        None => None,
    }
}

/// The identifier reached from `id` by walking `k` parent links through the
/// stored blocks, if every block on the way is stored.
pub open spec fn ancestor_at(bs: Seq<BlockView>, id: Seq<u8>, k: nat) -> Option<Seq<u8>>
    decreases k,
{
    if k == 0 {
        Some(id)
    } else {
        match parent_of(bs, id) {
            Some(p) => ancestor_at(bs, p, (k - 1) as nat),
            None => None,
        }
    }
}

/// What saving block `b` leaves in a store holding `bs`: blocks are
/// immutable once written, so a re-save of a stored identifier is a no-op.
pub open spec fn sb_model(bs: Seq<BlockView>, b: BlockView) -> Seq<BlockView> {
    if has_block(bs, b.id) {
        bs
    } else {
        bs.push(b)
    }
}

/// Saving a block is idempotent: a second save of the same block leaves
/// the stored blocks exactly as the first left them.
pub proof fn lemma_save_block_idempotent(bs: Seq<BlockView>, b: BlockView)
    ensures
        sb_model(sb_model(bs, b), b) == sb_model(bs, b),
{
    if !has_block(bs, b.id) {
        let bs1 = bs.push(b);
        assert(bs1[bs.len() as int] == b);
        assert(has_block(bs1, b.id));
    }
}

/// The canonical head dominates: it is at least as high as every known
/// non-canonical tip; while no head is set, no tip is known either.
pub open spec fn dominates(h: Option<TipView>, ts: Seq<TipView>) -> bool {
    match h {
        Some(hv) => forall|i: int| 0 <= i < ts.len() ==> ts[i].height <= hv.height,
        None => ts.len() == 0,
    }
}

/// Every known tip sits strictly below the height at which the counter
/// width runs out, so one more block can be appended to any of them.
pub open spec fn heights_ok(h: Option<TipView>, ts: Seq<TipView>) -> bool {
    &&& (h matches Some(hv) ==> hv.height < u64::MAX)
    &&& (forall|i: int| 0 <= i < ts.len() ==> ts[i].height < u64::MAX)
}

/// Every known tip's branch numbers leave room for a fresh, strictly
/// larger branch number, and for one more lineage element.
pub open spec fn branches_ok(h: Option<TipView>, ts: Seq<TipView>) -> bool {
    &&& (h matches Some(hv) ==> hv.lineage.last() < u32::MAX && hv.lineage.len() < u32::MAX)
    &&& (forall|i: int| 0 <= i < ts.len() ==> ts[i].lineage.last() < u32::MAX
        && ts[i].lineage.len() < u32::MAX)
}

/// Trait the chain pipeline requires an implementor for in order to process
/// blocks. Each operation either succeeds, fails because the datum is
/// absent (`NotFoundErr`), or fails because the medium failed
/// (`StorageErr`); a failed operation leaves the stored state unchanged.
pub trait ChainStore: Sized {
    /// The store's invariant: what every operation preserves.
    spec fn inv(&self) -> bool;

    /// Whether this store's medium never fails: an infallible store's
    /// operations never return `StorageErr` for a medium fault (the one
    /// remaining `StorageErr` is `head_header`'s corruption report). An
    /// in-memory store is infallible; a disk-backed one is not.
    spec fn infallible(&self) -> bool;

    /// The canonical head tip, if one was ever saved.
    spec fn head_view(&self) -> Option<TipView>;

    /// The known non-canonical fork tips, one per active fork.
    spec fn tips_view(&self) -> Seq<TipView>;

    /// The stored blocks, in the order they were first saved.
    spec fn blocks_view(&self) -> Seq<BlockView>;

    /// Get the tip that's also the head of the chain.
    fn head(&self) -> (r: Result<Tip, Error>)
        requires
            self.inv(),
        ensures
            match r {
                Ok(t) => self.head_view() == Some(t@) && t.wf(),
                Err(Error::NotFoundErr) => self.head_view() is None,
                Err(Error::StorageErr(_)) => !self.infallible(),
            },
    ;

    /// Block header for the chain head. Fails with `NotFoundErr` while no
    /// head is set, and with `StorageErr` if a head is set but its header
    /// is missing (data corruption).
    fn head_header(&self) -> (r: Result<BlockHeader, Error>)
        requires
            self.inv(),
        ensures
            match r {
                Ok(h) => {
                    &&& self.head_view() matches Some(hv)
                    &&& header_for(self.blocks_view(), hv.last) == Some(h@)
                    &&& h.wf()
                },
                Err(Error::NotFoundErr) => self.head_view() is None,
                Err(Error::StorageErr(_)) => true,
            },
    ;

    /// Gets a block header by block identifier.
    fn get_block_header(&self, h: &BlockHash) -> (r: Result<BlockHeader, Error>)
        requires
            self.inv(),
        ensures
            match r {
                Ok(hdr) => header_for(self.blocks_view(), h@) == Some(hdr@) && hdr.wf(),
                Err(Error::NotFoundErr) => !has_block(self.blocks_view(), h@),
                Err(Error::StorageErr(_)) => !self.infallible(),
            },
    ;

    /// All known non-canonical fork tips.
    fn tips(&self) -> (r: Result<Vec<Tip>, Error>)
        requires
            self.inv(),
        ensures
            match r {
                Ok(v) => v@.map_values(|t: Tip| t@) == self.tips_view() && (forall|i: int|
                    0 <= i < v@.len() ==> (#[trigger] v@[i]).wf()),
                Err(e) => e is StorageErr && !self.infallible(),
            },
    ;

    /// Save the provided block in store. Idempotent: saving a block whose
    /// identifier is already stored is a no-op, never an error.
    fn save_block(&mut self, b: &Block) -> (r: Result<(), Error>)
        requires
            old(self).inv(),
            b.wf(),
        ensures
            final(self).inv(),
            final(self).infallible() == old(self).infallible(),
            match r {
                Ok(()) => {
                    &&& final(self).blocks_view() == sb_model(old(self).blocks_view(), b@)
                    &&& final(self).head_view() == old(self).head_view()
                    &&& final(self).tips_view() == old(self).tips_view()
                },
                Err(e) => {
                    &&& e is StorageErr
                    &&& !old(self).infallible()
                    &&& final(self).blocks_view() == old(self).blocks_view()
                    &&& final(self).head_view() == old(self).head_view()
                    &&& final(self).tips_view() == old(self).tips_view()
                },
            },
    ;

    /// Save the provided tip as the current head of our chain, atomically
    /// replacing the previous head pointer.
    fn save_head(&mut self, t: &Tip) -> (r: Result<(), Error>)
        requires
            old(self).inv(),
            t.wf(),
        ensures
            final(self).inv(),
            final(self).infallible() == old(self).infallible(),
            match r {
                Ok(()) => {
                    &&& final(self).head_view() == Some(t@)
                    &&& final(self).blocks_view() == old(self).blocks_view()
                    &&& final(self).tips_view() == old(self).tips_view()
                },
                Err(e) => {
                    &&& e is StorageErr
                    &&& !old(self).infallible()
                    &&& final(self).blocks_view() == old(self).blocks_view()
                    &&& final(self).head_view() == old(self).head_view()
                    &&& final(self).tips_view() == old(self).tips_view()
                },
            },
    ;

    /// Save the provided tip without setting it as head. The tip stands
    /// for its fork: it replaces a stored tip of the same lineage and is
    /// added beside tips of other lineages, which are all retained.
    fn save_tip(&mut self, t: &Tip) -> (r: Result<(), Error>)
        requires
            old(self).inv(),
            t.wf(),
        ensures
            final(self).inv(),
            final(self).infallible() == old(self).infallible(),
            match r {
                Ok(()) => {
                    &&& final(self).blocks_view() == old(self).blocks_view()
                    &&& final(self).head_view() == old(self).head_view()
                    &&& final(self).tips_view().contains(t@)
                    &&& (forall|j: int| 0 <= j < final(self).tips_view().len()
                        ==> final(self).tips_view()[j] == t@
                            || old(self).tips_view().contains(final(self).tips_view()[j]))
                    &&& (forall|j: int| 0 <= j < old(self).tips_view().len()
                        && (#[trigger] old(self).tips_view()[j]).lineage != t@.lineage
                        ==> final(self).tips_view().contains(old(self).tips_view()[j]))
                },
                Err(e) => {
                    &&& e is StorageErr
                    &&& !old(self).infallible()
                    &&& final(self).blocks_view() == old(self).blocks_view()
                    &&& final(self).head_view() == old(self).head_view()
                    &&& final(self).tips_view() == old(self).tips_view()
                },
            },
    ;
}

/// Bridge between the chain pipeline and the rest of the system. Handles
/// downstream processing of valid blocks by the rest of the system, most
/// importantly the broadcasting of blocks to our peers. Fire and forget:
/// no return value and no error channel.
pub trait ChainAdapter {
    /// The blockchain pipeline has accepted this block as valid and added
    /// it to our chain.
    fn block_accepted(&self, b: &Block);
}

/// The default adapter when no downstream consumer is wired: accepts every
/// notification and does nothing with it.
pub struct NoopAdapter {}

impl ChainAdapter for NoopAdapter {
    fn block_accepted(&self, _b: &Block) {
    }
}

/// Whether `next` is the tip derived from `prev` by appending one block:
/// one higher, its parent is `prev`'s head, and the lineage is shared.
pub open spec fn derived_by_append(prev: TipView, next: TipView) -> bool {
    next == append_view(prev, next.last)
}

/// Height counts appends: along any sequence of successive appends starting
/// from the genesis tip, the k-th derived tip has height exactly k.
#[verifier::rlimit(50)]
pub proof fn lemma_height_monotonic(chain: Seq<TipView>, g: Seq<u8>)
    requires
        chain.len() >= 1,
        chain.len() <= u64::MAX,
        chain[0] == genesis_view(g),
        forall|k: int| 1 <= k < chain.len() ==> derived_by_append(chain[k - 1], #[trigger] chain[k]),
    ensures
        forall|k: int| 0 <= k < chain.len() ==> (#[trigger] chain[k]).height == k,
    decreases chain.len(),
{
    if chain.len() > 1 {
        let n = chain.len() - 1;
        let front = chain.drop_last();
        assert(front[0] == chain[0]);
        assert forall|k: int| 1 <= k < front.len() implies derived_by_append(
            front[k - 1],
            #[trigger] front[k],
        ) by {
            assert(front[k] == chain[k]);
            assert(front[k - 1] == chain[k - 1]);
            assert(derived_by_append(chain[k - 1], chain[k]));
        }
        lemma_height_monotonic(front, g);
        assert forall|k: int| 0 <= k < chain.len() implies (#[trigger] chain[k]).height == k by {
            if k < n {
                assert(front[k] == chain[k]);
                assert(front[k].height == k);
            } else {
                assert(front[n - 1] == chain[n - 1]);
                assert(front[n - 1].height == n - 1);
                assert(derived_by_append(chain[n - 1], chain[n]));
            }
        }
    }
}

/// Divergence produces a new lineage: two forks that branch off the same
/// ancestor lineage with distinct fresh branch numbers share the ancestor's
/// numbers as a common prefix and differ in their final element.
pub proof fn lemma_divergence_distinct(anc: Seq<u32>, b1: u32, b2: u32)
    requires
        b1 != b2,
    ensures
        anc.push(b1).take(anc.len() as int) == anc,
        anc.push(b2).take(anc.len() as int) == anc,
        anc.push(b1).last() != anc.push(b2).last(),
        anc.push(b1) != anc.push(b2),
{
    assert(anc.push(b1).take(anc.len() as int) =~= anc);
    assert(anc.push(b2).take(anc.len() as int) =~= anc);
}

} // verus!
