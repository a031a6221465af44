//! The fork selector: places each incoming validated block on a chain.
//! A block either extends the canonical head, extends a known side fork,
//! diverges from a stored historical block (opening a new fork), or is an
//! orphan whose parent is unknown. The selector persists the block, stages
//! or promotes the affected tip, and notifies the adapter exactly once,
//! after all writes.

use vstd::prelude::*;

use crate::types::{
    ancestor_at, append_view, branches_ok, dominates, has_block, header_for, heights_ok, parent_of,
    sb_model, Block, BlockHash, BlockView, ChainAdapter, ChainStore, Error, Lineage, Tip, TipView,
};

verus! {

/// Whether `t` is the tip the canonical head `hv` derives into when block
/// `b` extends it directly.
pub open spec fn head_extension(hv: TipView, b: BlockView, t: TipView) -> bool {
    b.prev == hv.last && t == append_view(hv, b.id)
}

/// Whether `t` is derived by appending block `b` to some known side tip:
/// an extension of a non-canonical fork, lineage unchanged.
pub open spec fn side_extension(hv: TipView, ts: Seq<TipView>, b: BlockView, t: TipView) -> bool {
    &&& b.prev != hv.last
    &&& exists|i: int|
        0 <= i < ts.len() && (#[trigger] ts[i]).last == b.prev && t == append_view(ts[i], b.id)
}

/// Whether `nb` is fresh: strictly above every branch number already
/// ending a known lineage, so no sibling fork can carry it.
pub open spec fn fresh_branch(nb: u32, hv: TipView, ts: Seq<TipView>) -> bool {
    &&& nb > hv.lineage.last()
    &&& forall|i: int| 0 <= i < ts.len() ==> nb > (#[trigger] ts[i]).lineage.last()
}

/// Whether the known tip `c` (the head or a side tip) has the block
/// `target`, of height `th`, on its chain of parent links.
pub open spec fn is_fork_ancestor(
    c: TipView,
    hv: TipView,
    ts: Seq<TipView>,
    bs: Seq<BlockView>,
    target: Seq<u8>,
    th: u64,
) -> bool {
    &&& (c == hv || ts.contains(c))
    &&& c.height >= th
    &&& ancestor_at(bs, c.last, (c.height - th) as nat) == Some(target)
}

/// Whether no known fork — neither the head nor any side tip — has the
/// block `target`, of height `th`, on its chain of parent links.
pub open spec fn no_fork_ancestor(
    hv: TipView,
    ts: Seq<TipView>,
    bs: Seq<BlockView>,
    target: Seq<u8>,
    th: u64,
) -> bool {
    forall|c: TipView| !(#[trigger] is_fork_ancestor(c, hv, ts, bs, target, th))
}

/// Whether `lin` is the lineage of some known fork whose chain holds the
/// block `target` of height `th`: the ancestor lineage a divergence at
/// `target` extends.
pub open spec fn fork_lineage_ok(
    hv: TipView,
    ts: Seq<TipView>,
    bs: Seq<BlockView>,
    target: Seq<u8>,
    th: u64,
    lin: Seq<u32>,
) -> bool {
    exists|c: TipView| #[trigger] is_fork_ancestor(c, hv, ts, bs, target, th) && lin == c.lineage
}

/// Whether `t` is the tip of a new fork diverging at block `b`'s parent:
/// the parent is stored but heads no known fork, and `t` extends the
/// lineage of a fork holding the parent with a fresh branch number.
pub open spec fn divergence(
    hv: TipView,
    ts: Seq<TipView>,
    bs: Seq<BlockView>,
    b: BlockView,
    t: TipView,
) -> bool {
    &&& b.prev != hv.last
    &&& (forall|j: int| 0 <= j < ts.len() ==> (#[trigger] ts[j]).last != b.prev)
    &&& header_for(bs, b.prev) matches Some(ph) && t.height == ph.height + 1
    &&& t.last == b.id
    &&& t.prev == b.prev
    &&& t.lineage.len() >= 2
    &&& fresh_branch(t.lineage.last(), hv, ts)
    &&& fork_lineage_ok(hv, ts, bs, b.prev, (t.height - 1) as u64, t.lineage.drop_last())
}

/// How the side-tip set changes when tip `t` is staged: `t` is recorded,
/// nothing else appears, and every tip of another lineage is retained.
pub open spec fn tips_updated(pre: Seq<TipView>, t: TipView, post: Seq<TipView>) -> bool {
    &&& post.contains(t)
    &&& (forall|j: int| 0 <= j < post.len() ==> (#[trigger] post[j]) == t || pre.contains(post[j]))
    &&& (forall|j: int|
        0 <= j < pre.len() && (#[trigger] pre[j]).lineage != t.lineage ==> post.contains(pre[j]))
}

/// The promotion rule: the candidate `t` becomes the head exactly when it
/// is strictly higher than the current head; on a tie the current head is
/// kept, so no reorg happens.
pub open spec fn promoted(hv: TipView, t: TipView, post_head: Option<TipView>) -> bool {
    post_head == if t.height > hv.height {
        Some(t)
    } else {
        Some(hv)
    }
}

/// Everything the selector guarantees of a successful acceptance: the
/// returned tip `t` is a head extension, a side extension, or a
/// divergence, and the head and side tips moved accordingly.
pub open spec fn accepted(
    hv: TipView,
    pre_tips: Seq<TipView>,
    pre_blocks: Seq<BlockView>,
    b: BlockView,
    t: TipView,
    post_head: Option<TipView>,
    post_tips: Seq<TipView>,
) -> bool {
    ||| (head_extension(hv, b, t) && post_head == Some(t) && post_tips == pre_tips)
    ||| (side_extension(hv, pre_tips, b, t) && tips_updated(pre_tips, t, post_tips) && promoted(
        hv,
        t,
        post_head,
    ))
    ||| (divergence(hv, pre_tips, pre_blocks, b, t) && tips_updated(pre_tips, t, post_tips)
        && promoted(hv, t, post_head))
}

/// Canonical-head invariant: an acceptance keeps the head at least as high
/// as every known side tip, under the no-reorg-on-tie promotion rule.
pub proof fn lemma_accept_preserves_dominance(
    hv: TipView,
    pre_tips: Seq<TipView>,
    pre_blocks: Seq<BlockView>,
    b: BlockView,
    t: TipView,
    post_head: Option<TipView>,
    post_tips: Seq<TipView>,
)
    requires
        heights_ok(Some(hv), pre_tips),
        dominates(Some(hv), pre_tips),
        accepted(hv, pre_tips, pre_blocks, b, t, post_head, post_tips),
    ensures
        dominates(post_head, post_tips),
{
    if head_extension(hv, b, t) && post_head == Some(t) && post_tips == pre_tips {
        assert(t.height == hv.height + 1);
        assert forall|i: int| 0 <= i < post_tips.len() implies post_tips[i].height
            <= t.height by {
            assert(pre_tips[i].height <= hv.height);
        }
    } else {
        let nh = if t.height > hv.height {
            t
        } else {
            hv
        };
        assert(post_head == Some(nh));
        if side_extension(hv, pre_tips, b, t) {
            let i = choose|i: int|
                0 <= i < pre_tips.len() && (#[trigger] pre_tips[i]).last == b.prev && t
                    == append_view(pre_tips[i], b.id);
            assert(pre_tips[i].height <= hv.height);
            assert(t.height <= hv.height + 1);
        }
        assert forall|j: int| 0 <= j < post_tips.len() implies post_tips[j].height
            <= nh.height by {
            if post_tips[j] == t {
            } else {
                assert(pre_tips.contains(post_tips[j]));
                let k = choose|k: int| 0 <= k < pre_tips.len() && pre_tips[k] == post_tips[j];
                assert(pre_tips[k].height <= hv.height);
            }
        }
    }
}

fn find_tip_index(tips: &Vec<Tip>, id: &BlockHash) -> (r: Option<usize>)
    ensures
        match r {
            Some(i) => i < tips@.len() && (#[trigger] tips@[i as int])@.last == id@,
            None => forall|j: int| 0 <= j < tips@.len() ==> (#[trigger] tips@[j])@.last != id@,
        },
{
    let mut i: usize = 0;
    while i < tips.len()
        invariant
            i <= tips@.len(),
            forall|j: int| 0 <= j < i ==> (#[trigger] tips@[j])@.last != id@,
        decreases tips@.len() - i,
    {
        if tips[i].last_block_h == *id {
            return Some(i);
        }
        i = i + 1;
    }
    None
}

fn max_branch(head: &Tip, tips: &Vec<Tip>) -> (r: u32)
    requires
        head@.lineage.len() >= 1,
        forall|i: int| 0 <= i < tips@.len() ==> (#[trigger] tips@[i])@.lineage.len() >= 1,
    ensures
        r >= head@.lineage.last(),
        forall|i: int| 0 <= i < tips@.len() ==> r >= (#[trigger] tips@[i])@.lineage.last(),
        r == head@.lineage.last() || exists|i: int|
            0 <= i < tips@.len() && r == (#[trigger] tips@[i])@.lineage.last(),
{
    let mut m: u32 = head.lineage.last_branch();
    let mut i: usize = 0;
    while i < tips.len()
        invariant
            i <= tips@.len(),
            forall|k: int| 0 <= k < tips@.len() ==> (#[trigger] tips@[k])@.lineage.len() >= 1,
            m >= head@.lineage.last(),
            forall|k: int| 0 <= k < i ==> m >= (#[trigger] tips@[k])@.lineage.last(),
            m == head@.lineage.last() || exists|k: int|
                0 <= k < tips@.len() && m == (#[trigger] tips@[k])@.lineage.last(),
        decreases tips@.len() - i,
    {
        let b = tips[i].lineage.last_branch();
        if b > m {
            m = b;
        }
        i = i + 1;
    }
    m
}

fn chain_contains<S: ChainStore>(
    store: &S,
    from: &BlockHash,
    from_height: u64,
    target: &BlockHash,
    target_height: u64,
) -> (r: Result<bool, Error>)
    requires
        store.inv(),
    ensures
        match r {
            Ok(c) => c == (from_height >= target_height && ancestor_at(
                store.blocks_view(),
                from@,
                (from_height - target_height) as nat,
            ) == Some(target@)),
            Err(e) => e is StorageErr,
        },
        store.infallible() ==> r is Ok,
{
    if from_height < target_height {
        return Ok(false);
    }
    let mut cur: BlockHash = from.clone();
    let mut h: u64 = from_height;
    while h > target_height
        invariant
            store.inv(),
            target_height <= h <= from_height,
            ancestor_at(store.blocks_view(), from@, (from_height - target_height) as nat)
                == ancestor_at(store.blocks_view(), cur@, (h - target_height) as nat),
        decreases h - target_height,
    {
        match store.get_block_header(&cur) {
            Ok(hdr) => {
                proof {
                    let bs = store.blocks_view();
                    assert(parent_of(bs, cur@) == Some(hdr@.prev));
                    assert(ancestor_at(bs, cur@, (h - target_height) as nat) == ancestor_at(
                        bs,
                        hdr@.prev,
                        (h - 1 - target_height) as nat,
                    ));
                }
                cur = hdr.previous;
                h = h - 1;
            },
            Err(Error::NotFoundErr) => {
                proof {
                    let bs = store.blocks_view();
                    assert(parent_of(bs, cur@) is None);
                    assert(ancestor_at(bs, cur@, (h - target_height) as nat) is None);
                }
                return Ok(false);
            },
            Err(e) => {
                return Err(e);
            },
        }
    }
    let c = cur == *target;
    proof {
        assert(ancestor_at(store.blocks_view(), cur@, 0) == Some(cur@));
    }
    Ok(c)
}

fn find_fork_lineage<S: ChainStore>(
    store: &S,
    head: &Tip,
    tips: &Vec<Tip>,
    target: &BlockHash,
    target_height: u64,
) -> (r: Result<Lineage, Error>)
    requires
        store.inv(),
        head.wf(),
        forall|i: int| 0 <= i < tips@.len() ==> (#[trigger] tips@[i]).wf(),
    ensures
        match r {
            Ok(l) => l.wf() && fork_lineage_ok(
                head@,
                tips@.map_values(|t: Tip| t@),
                store.blocks_view(),
                target@,
                target_height,
                l@,
            ),
            Err(e) => e is StorageErr && (store.infallible() ==> no_fork_ancestor(
                head@,
                tips@.map_values(|t: Tip| t@),
                store.blocks_view(),
                target@,
                target_height,
            )),
        },
{
    let ts = Ghost(tips@.map_values(|t: Tip| t@));
    match chain_contains(store, &head.last_block_h, head.height, target, target_height) {
        Ok(true) => {
            let l = head.lineage.clone();
            proof {
                assert(is_fork_ancestor(
                    head@,
                    head@,
                    ts@,
                    store.blocks_view(),
                    target@,
                    target_height,
                ));
            }
            return Ok(l);
        },
        Ok(false) => {},
        Err(e) => {
            return Err(e);
        },
    }
    let mut i: usize = 0;
    while i < tips.len()
        invariant
            store.inv(),
            i <= tips@.len(),
            forall|k: int| 0 <= k < tips@.len() ==> (#[trigger] tips@[k]).wf(),
            ts@ == tips@.map_values(|t: Tip| t@),
            !is_fork_ancestor(head@, head@, ts@, store.blocks_view(), target@, target_height),
            forall|k: int| 0 <= k < i ==> !(#[trigger] is_fork_ancestor(
                ts@[k],
                head@,
                ts@,
                store.blocks_view(),
                target@,
                target_height,
            )),
        decreases tips@.len() - i,
    {
        match chain_contains(store, &tips[i].last_block_h, tips[i].height, target, target_height) {
            Ok(true) => {
                let l = tips[i].lineage.clone();
                proof {
                    assert(ts@[i as int] == tips@[i as int]@);
                    assert(ts@.contains(tips@[i as int]@));
                    assert(is_fork_ancestor(
                        tips@[i as int]@,
                        head@,
                        ts@,
                        store.blocks_view(),
                        target@,
                        target_height,
                    ));
                }
                return Ok(l);
            },
            Ok(false) => {
                proof {
                    assert(ts@[i as int] == tips@[i as int]@);
                    assert(!is_fork_ancestor(
                        ts@[i as int],
                        head@,
                        ts@,
                        store.blocks_view(),
                        target@,
                        target_height,
                    ));
                }
            },
            Err(e) => {
                return Err(e);
            },
        }
        i = i + 1;
    }
    proof {
        assert forall|c: TipView| !(#[trigger] is_fork_ancestor(
            c,
            head@,
            ts@,
            store.blocks_view(),
            target@,
            target_height,
        )) by {
            if is_fork_ancestor(c, head@, ts@, store.blocks_view(), target@, target_height) {
                if c != head@ {
                    assert(ts@.contains(c));
                    let k = choose|k: int| 0 <= k < ts@.len() && ts@[k] == c;
                    assert(!is_fork_ancestor(
                        ts@[k],
                        head@,
                        ts@,
                        store.blocks_view(),
                        target@,
                        target_height,
                    ));
                }
            }
        }
    }
    // A stored parent that no known fork can reach: by the selector's own
    // store interface this fork's lineage is unrecoverable (for instance a
    // fork whose head was demoted by a reorg and never re-saved as a tip),
    // so it is surfaced as inconsistent data, not as absence.
    Err(Error::StorageErr("stored block unreachable from every known tip".to_string()))
}

/// Process one validated block: find the fork its parent heads, derive the
/// successor tip, persist the block, stage or promote the tip, and notify
/// the adapter once all writes are done. Fails with `NotFoundErr`, with no
/// state change, if no head is set or the parent is unknown (an orphan).
pub fn process_block<S: ChainStore, A: ChainAdapter>(store: &mut S, adapter: &A, b: &Block) -> (r:
    Result<Tip, Error>)
    requires
        old(store).inv(),
        b.wf(),
        heights_ok(old(store).head_view(), old(store).tips_view()),
        branches_ok(old(store).head_view(), old(store).tips_view()),
    ensures
        final(store).inv(),
        match r {
            Ok(t) => {
                &&& old(store).head_view() matches Some(hv) && accepted(
                    hv,
                    old(store).tips_view(),
                    old(store).blocks_view(),
                    b@,
                    t@,
                    final(store).head_view(),
                    final(store).tips_view(),
                )
                &&& final(store).blocks_view() == sb_model(old(store).blocks_view(), b@)
                &&& t.wf()
            },
            Err(Error::NotFoundErr) => {
                &&& (match old(store).head_view() {
                    None => true,
                    Some(hv) => hv.last != b@.prev && (forall|j: int|
                        0 <= j < old(store).tips_view().len() ==> (#[trigger] old(
                            store,
                        ).tips_view()[j]).last != b@.prev) && !has_block(
                        old(store).blocks_view(),
                        b@.prev,
                    ),
                })
                &&& final(store).head_view() == old(store).head_view()
                &&& final(store).tips_view() == old(store).tips_view()
                &&& final(store).blocks_view() == old(store).blocks_view()
            },
            Err(Error::StorageErr(_)) => {
                &&& final(store).head_view() == old(store).head_view()
                &&& (final(store).blocks_view() == old(store).blocks_view()
                    || final(store).blocks_view() == sb_model(old(store).blocks_view(), b@))
                &&& (final(store).tips_view() == old(store).tips_view() || exists|t: TipView|
                    #[trigger] tips_updated(old(store).tips_view(), t, final(store).tips_view()))
            },
        },
        dominates(old(store).head_view(), old(store).tips_view()) && !(r matches Err(
            Error::StorageErr(_),
        )) ==> dominates(final(store).head_view(), final(store).tips_view()),
        final(store).infallible() == old(store).infallible(),
        (old(store).infallible() && r matches Err(Error::StorageErr(_))) ==> (old(store).head_view()
            matches Some(hv) && header_for(old(store).blocks_view(), b@.prev)
            matches Some(ph) && no_fork_ancestor(
            hv,
            old(store).tips_view(),
            old(store).blocks_view(),
            b@.prev,
            ph.height,
        )),
{
    let head = match store.head() {
        Ok(t) => t,
        Err(e) => {
            return Err(e);
        },
    };
    if b.header.previous == head.last_block_h {
        // Simple extension of the canonical head.
        let nt = head.append(b.id.clone());
        match store.save_block(b) {
            Ok(()) => {},
            Err(e) => {
                return Err(e);
            },
        }
        match store.save_head(&nt) {
            Ok(()) => {},
            Err(e) => {
                return Err(e);
            },
        }
        adapter.block_accepted(b);
        proof {
            assert(head_extension(head@, b@, nt@));
            if dominates(old(store).head_view(), old(store).tips_view()) {
                lemma_accept_preserves_dominance(
                    head@,
                    old(store).tips_view(),
                    old(store).blocks_view(),
                    b@,
                    nt@,
                    store.head_view(),
                    store.tips_view(),
                );
            }
        }
        return Ok(nt);
    }
    let tips = match store.tips() {
        Ok(v) => v,
        Err(e) => {
            return Err(e);
        },
    };
    let ghost ts = old(store).tips_view();
    match find_tip_index(&tips, &b.header.previous) {
        Some(i) => {
            // Extension of a known side fork: lineage unchanged.
            proof {
                assert(tips@.map_values(|t: Tip| t@)[i as int] == tips@[i as int]@);
                assert(ts[i as int] == tips@[i as int]@);
            }
            let nt = tips[i].append(b.id.clone());
            match store.save_block(b) {
                Ok(()) => {},
                Err(e) => {
                    return Err(e);
                },
            }
            match store.save_tip(&nt) {
                Ok(()) => {},
                Err(e) => {
                    return Err(e);
                },
            }
            if nt.height > head.height {
                // This fork is now strictly taller: reorg onto it.
                match store.save_head(&nt) {
                    Ok(()) => {},
                    Err(e) => {
                        proof {
                            assert(tips_updated(ts, nt@, store.tips_view()));
                        }
                        return Err(e);
                    },
                }
            }
            adapter.block_accepted(b);
            proof {
                assert(side_extension(head@, ts, b@, nt@));
                assert(promoted(head@, nt@, store.head_view()));
                if dominates(old(store).head_view(), old(store).tips_view()) {
                    lemma_accept_preserves_dominance(
                        head@,
                        ts,
                        old(store).blocks_view(),
                        b@,
                        nt@,
                        store.head_view(),
                        store.tips_view(),
                    );
                }
            }
            return Ok(nt);
        },
        None => {
            proof {
                assert forall|j: int| 0 <= j < ts.len() implies (#[trigger] ts[j]).last
                    != b@.prev by {
                    assert(ts[j] == tips@[j]@);
                }
            }
            let ph = match store.get_block_header(&b.header.previous) {
                Ok(h) => h,
                Err(Error::NotFoundErr) => {
                    // Orphan: the parent is entirely unknown; the caller
                    // must fetch and accept ancestors first.
                    return Err(Error::NotFoundErr);
                },
                Err(e) => {
                    return Err(e);
                },
            };
            let anc = match find_fork_lineage(store, &head, &tips, &b.header.previous, ph.height) {
                Ok(l) => l,
                Err(e) => {
                    return Err(e);
                },
            };
            let mb = max_branch(&head, &tips);
            proof {
                if mb != head@.lineage.last() {
                    let k = choose|k: int|
                        0 <= k < tips@.len() && mb == (#[trigger] tips@[k])@.lineage.last();
                    assert(ts[k] == tips@[k]@);
                }
                assert(mb < u32::MAX);
                let c = choose|c: TipView|
                    #[trigger] is_fork_ancestor(
                        c,
                        head@,
                        ts,
                        old(store).blocks_view(),
                        b@.prev,
                        ph@.height,
                    ) && anc@ == c.lineage;
                if c != head@ {
                    let k = choose|k: int| 0 <= k < ts.len() && ts[k] == c;
                }
                assert(anc@.len() < u32::MAX);
            }
            let nb = mb + 1;
            // A divergence: open a new fork whose lineage extends the
            // ancestor fork's lineage with a fresh branch number.
            let nl = anc.diverge(nb);
            let nt = Tip {
                height: ph.height + 1,
                last_block_h: b.id.clone(),
                prev_block_h: b.header.previous.clone(),
                lineage: nl,
            };
            match store.save_block(b) {
                Ok(()) => {},
                Err(e) => {
                    return Err(e);
                },
            }
            match store.save_tip(&nt) {
                Ok(()) => {},
                Err(e) => {
                    return Err(e);
                },
            }
            if nt.height > head.height {
                match store.save_head(&nt) {
                    Ok(()) => {},
                    Err(e) => {
                        proof {
                            assert(tips_updated(ts, nt@, store.tips_view()));
                        }
                        return Err(e);
                    },
                }
            }
            adapter.block_accepted(b);
            proof {
                assert(nt@.lineage.drop_last() =~= anc@);
                assert(divergence(head@, ts, old(store).blocks_view(), b@, nt@));
                assert(promoted(head@, nt@, store.head_view()));
                if dominates(old(store).head_view(), old(store).tips_view()) {
                    lemma_accept_preserves_dominance(
                        head@,
                        ts,
                        old(store).blocks_view(),
                        b@,
                        nt@,
                        store.head_view(),
                        store.tips_view(),
                    );
                }
            }
            return Ok(nt);
        },
    }
}

} // verus!
