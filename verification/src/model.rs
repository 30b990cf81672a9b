//! The mathematical model of the hash-tree store: which hash-index and
//! blob-store states are well-formed, and which chunk sequence a tree
//! rooted at a content address decodes to.

use crate::blob_store::{bs_extends, chunk_at, ref_valid, BlobStoreView};
use crate::codec::{hash_of, link_bounded, parse_links, LinkView};
use crate::hash_index::HashRecView;
use vstd::prelude::*;

verus! {

/// The hash index as a map from content address to row.
pub type HiView = Map<Seq<u8>, HashRecView>;

/// A child descriptor of an interior node at `parent_level` points at a
/// recorded node one level down, with the ref the hash index holds for it.
pub open spec fn child_link_ok(hi: HiView, parent_level: u64, l: LinkView) -> bool {
    &&& hi.contains_key(l.hash)
    &&& hi[l.hash].level + 1 == parent_level
    &&& hi[l.hash].pref == Some(l.pref)
    &&& link_bounded(l)
}

/// One recorded node is internally consistent: its ref resolves, its
/// address is the content address of its block, leaves carry no payload,
/// and an interior node's payload is its block, which parses into at
/// least one well-recorded child.
pub open spec fn node_ok(hi: HiView, bs: BlobStoreView, h: Seq<u8>) -> bool {
    &&& hi.contains_key(h)
    &&& match hi[h].pref {
        None => false,
        Some(r) => {
            let block = chunk_at(bs, r);
            &&& ref_valid(bs, r)
            &&& h == hash_of(hi[h].level, block)
            &&& if hi[h].level == 0 {
                hi[h].payload is None
            } else {
                &&& hi[h].payload == Some(block)
                &&& match parse_links(block) {
                    None => false,
                    Some(ls) => {
                        &&& ls.len() >= 1
                        &&& forall|i: int|
                            0 <= i < ls.len() ==> child_link_ok(
                                hi,
                                hi[h].level,
                                #[trigger] ls[i],
                            )
                    },
                }
            }
        },
    }
}

/// Every recorded node is consistent.  This holds at every key-store
/// boundary; it is broken only transiently between a reservation and the
/// recording of the reserved ref.
pub open spec fn hi_wf(hi: HiView, bs: BlobStoreView) -> bool {
    forall|h: Seq<u8>| #[trigger] hi.contains_key(h) ==> node_ok(hi, bs, h)
}

/// The hash index only grows, and a recorded node's level, payload and
/// ref never change (only its durability mark may).
pub open spec fn hi_extends(h1: HiView, h2: HiView) -> bool {
    forall|k: Seq<u8>| #[trigger] h1.contains_key(k) ==> {
        &&& h2.contains_key(k)
        &&& h2[k].level == h1[k].level
        &&& h2[k].payload == h1[k].payload
        &&& h2[k].pref == h1[k].pref
    }
}

/// The chunk sequence of the tree rooted at `h`, descending `lvl` more
/// levels.  Under `hi_wf`, calling with `lvl` equal to the node's
/// recorded level yields the tree's leaf chunks in order.
pub open spec fn decode_node(hi: HiView, bs: BlobStoreView, h: Seq<u8>, lvl: nat) -> Seq<Seq<u8>>
    decreases lvl, 0nat, 0nat,
{
    if hi.contains_key(h) {
        match hi[h].pref {
            Some(r) => {
                let block = chunk_at(bs, r);
                if hi[h].level == 0 {
                    seq![block]
                } else if lvl == 0 {
                    Seq::empty()
                } else {
                    match parse_links(block) {
                        Some(ls) => decode_list(hi, bs, ls, (lvl - 1) as nat),
                        None => Seq::empty(),
                    }
                }
            },
            None => Seq::empty(),
        }
    } else {
        Seq::empty()
    }
}

/// The concatenation of the chunk sequences of the trees rooted at the
/// given child descriptors, left to right.
pub open spec fn decode_list(hi: HiView, bs: BlobStoreView, ls: Seq<LinkView>, lvl: nat) -> Seq<
    Seq<u8>,
>
    decreases lvl, 1nat, ls.len(),
{
    if ls.len() == 0 {
        Seq::empty()
    } else {
        decode_node(hi, bs, ls[0].hash, lvl) + decode_list(
            hi,
            bs,
            ls.subrange(1, ls.len() as int),
            lvl,
        )
    }
}

/// The chunk sequence of the tree rooted at content address `h`.
pub open spec fn decode(hi: HiView, bs: BlobStoreView, h: Seq<u8>) -> Seq<Seq<u8>> {
    decode_node(hi, bs, h, hi[h].level as nat)
}

pub proof fn lemma_decode_list_snoc(
    hi: HiView,
    bs: BlobStoreView,
    ls: Seq<LinkView>,
    l: LinkView,
    lvl: nat,
)
    ensures
        decode_list(hi, bs, ls.push(l), lvl) == decode_list(hi, bs, ls, lvl) + decode_node(
            hi,
            bs,
            l.hash,
            lvl,
        ),
    decreases ls.len(),
{
    let p = ls.push(l);
    if ls.len() == 0 {
        assert(p[0] == l);
        assert(p.subrange(1, p.len() as int) =~= Seq::<LinkView>::empty());
        assert(decode_list(hi, bs, p.subrange(1, p.len() as int), lvl) == Seq::<Seq<u8>>::empty());
        assert(decode_list(hi, bs, p, lvl) == decode_node(hi, bs, l.hash, lvl) + Seq::<Seq<
            u8,
        >>::empty());
        assert(decode_node(hi, bs, l.hash, lvl) + Seq::<Seq<u8>>::empty() =~= Seq::<Seq<
            u8,
        >>::empty() + decode_node(hi, bs, l.hash, lvl));
    } else {
        let tail = ls.subrange(1, ls.len() as int);
        assert(p.subrange(1, p.len() as int) =~= tail.push(l));
        lemma_decode_list_snoc(hi, bs, tail, l, lvl);
        assert(p[0] == ls[0]);
        assert(decode_list(hi, bs, p, lvl) == decode_node(hi, bs, ls[0].hash, lvl) + (decode_list(
            hi,
            bs,
            tail,
            lvl,
        ) + decode_node(hi, bs, l.hash, lvl)));
        assert(decode_list(hi, bs, ls, lvl) == decode_node(hi, bs, ls[0].hash, lvl) + decode_list(
            hi,
            bs,
            tail,
            lvl,
        ));
        assert(decode_node(hi, bs, ls[0].hash, lvl) + (decode_list(hi, bs, tail, lvl)
            + decode_node(hi, bs, l.hash, lvl)) =~= (decode_node(hi, bs, ls[0].hash, lvl)
            + decode_list(hi, bs, tail, lvl)) + decode_node(hi, bs, l.hash, lvl));
    }
}

/// Frame rule: growing the hash index and the blob store changes no
/// recorded tree's decoding.
pub proof fn lemma_decode_node_frame(
    hi1: HiView,
    bs1: BlobStoreView,
    hi2: HiView,
    bs2: BlobStoreView,
    h: Seq<u8>,
    lvl: nat,
)
    requires
        hi_wf(hi1, bs1),
        hi1.contains_key(h),
        hi1[h].level as nat == lvl,
        hi_extends(hi1, hi2),
        bs_extends(bs1, bs2),
    ensures
        decode_node(hi2, bs2, h, lvl) == decode_node(hi1, bs1, h, lvl),
    decreases lvl, 0nat, 0nat,
{
    assert(node_ok(hi1, bs1, h));
    let r = hi1[h].pref->Some_0;
    let block = chunk_at(bs1, r);
    assert(chunk_at(bs2, r) == block);
    if hi1[h].level == 0 {
    } else {
        let ls = parse_links(block)->Some_0;
        assert(forall|i: int|
            0 <= i < ls.len() ==> child_link_ok(hi1, hi1[h].level, #[trigger] ls[i]));
        lemma_decode_list_frame(hi1, bs1, hi2, bs2, ls, (lvl - 1) as nat);
    }
}

pub proof fn lemma_decode_list_frame(
    hi1: HiView,
    bs1: BlobStoreView,
    hi2: HiView,
    bs2: BlobStoreView,
    ls: Seq<LinkView>,
    lvl: nat,
)
    requires
        hi_wf(hi1, bs1),
        hi_extends(hi1, hi2),
        bs_extends(bs1, bs2),
        forall|i: int|
            0 <= i < ls.len() ==> hi1.contains_key((#[trigger] ls[i]).hash) && hi1[ls[i].hash].level
                as nat == lvl,
    ensures
        decode_list(hi2, bs2, ls, lvl) == decode_list(hi1, bs1, ls, lvl),
    decreases lvl, 1nat, ls.len(),
{
    if ls.len() > 0 {
        lemma_decode_node_frame(hi1, bs1, hi2, bs2, ls[0].hash, lvl);
        let tail = ls.subrange(1, ls.len() as int);
        lemma_decode_list_frame(hi1, bs1, hi2, bs2, tail, lvl);
    }
}

/// The chunk at blob index `i` is the block of a node recorded since
/// `hi0`: its content address is a key new over `hi0`, whose recorded
/// ref locates exactly that chunk.
pub open spec fn chunk_is_new_node(hi0: HiView, hi: HiView, bs: BlobStoreView, i: int) -> bool {
    exists|h: Seq<u8>|
        {
            &&& !hi0.contains_key(h)
            &&& #[trigger] hi.contains_key(h)
            &&& match hi[h].pref {
                Some(r) => r.blob_id as int == i && chunk_at(bs, r) == bs.chunks[i],
                None => false,
            }
        }
}

/// Every chunk the blob store gained over a state pair is the block of
/// a node recorded since `hi0`: chunks are stored only for fresh
/// content, never twice for a hash already on record.
pub open spec fn new_chunks_recorded(
    hi0: HiView,
    hi: HiView,
    bs0: BlobStoreView,
    bs: BlobStoreView,
) -> bool {
    forall|i: int|
        bs0.chunks.len() <= i < bs.chunks.len() ==> #[trigger] chunk_is_new_node(hi0, hi, bs, i)
}

/// A newly recorded node stays one as the indices grow further.
pub proof fn lemma_chunk_is_new_node_frame(
    hi0: HiView,
    hi1: HiView,
    hi2: HiView,
    bs1: BlobStoreView,
    bs2: BlobStoreView,
    i: int,
)
    requires
        chunk_is_new_node(hi0, hi1, bs1, i),
        hi_extends(hi1, hi2),
        bs_extends(bs1, bs2),
        0 <= i < bs1.chunks.len(),
    ensures
        chunk_is_new_node(hi0, hi2, bs2, i),
{
    let h = choose|h: Seq<u8>|
        {
            &&& !hi0.contains_key(h)
            &&& #[trigger] hi1.contains_key(h)
            &&& match hi1[h].pref {
                Some(r) => r.blob_id as int == i && chunk_at(bs1, r) == bs1.chunks[i],
                None => false,
            }
        };
    assert(hi2.contains_key(h));
    assert(hi2[h].pref == hi1[h].pref);
    assert(bs2.chunks[i] == bs1.chunks[i]);
}

/// The store-only-fresh bound composes across two growth steps.
pub proof fn lemma_new_chunks_recorded_trans(
    hi0: HiView,
    hi1: HiView,
    hi2: HiView,
    bs0: BlobStoreView,
    bs1: BlobStoreView,
    bs2: BlobStoreView,
)
    requires
        new_chunks_recorded(hi0, hi1, bs0, bs1),
        new_chunks_recorded(hi1, hi2, bs1, bs2),
        hi_extends(hi0, hi1),
        hi_extends(hi1, hi2),
        bs_extends(bs1, bs2),
        bs0.chunks.len() <= bs1.chunks.len(),
    ensures
        new_chunks_recorded(hi0, hi2, bs0, bs2),
{
    assert forall|i: int|
        bs0.chunks.len() <= i < bs2.chunks.len() implies #[trigger] chunk_is_new_node(
        hi0,
        hi2,
        bs2,
        i,
    ) by {
        if i < bs1.chunks.len() {
            assert(chunk_is_new_node(hi0, hi1, bs1, i));
            lemma_chunk_is_new_node_frame(hi0, hi1, hi2, bs1, bs2, i);
        } else {
            assert(chunk_is_new_node(hi1, hi2, bs2, i));
            let h = choose|h: Seq<u8>|
                {
                    &&& !hi1.contains_key(h)
                    &&& #[trigger] hi2.contains_key(h)
                    &&& match hi2[h].pref {
                        Some(r) => r.blob_id as int == i && chunk_at(bs2, r) == bs2.chunks[i],
                        None => false,
                    }
                };
            if hi0.contains_key(h) {
                assert(hi1.contains_key(h));
            }
            assert(!hi0.contains_key(h) && hi2.contains_key(h) && match hi2[h].pref {
                Some(r) => r.blob_id as int == i && chunk_at(bs2, r) == bs2.chunks[i],
                None => false,
            });
        }
    }
}

/// A flush only marks recorded nodes durable: with levels, payloads and
/// refs unchanged on an unchanged key set, consistency carries over.
pub proof fn lemma_hi_wf_mutual(hi1: HiView, hi2: HiView, bs: BlobStoreView)
    requires
        hi_wf(hi1, bs),
        hi_extends(hi1, hi2),
        forall|k: Seq<u8>| hi2.contains_key(k) == hi1.contains_key(k),
    ensures
        hi_wf(hi2, bs),
{
    assert forall|h: Seq<u8>| #[trigger] hi2.contains_key(h) implies node_ok(hi2, bs, h) by {
        assert(node_ok(hi1, bs, h));
        match hi1[h].pref {
            Some(r) => {
                if hi1[h].level > 0 {
                    let ls = parse_links(chunk_at(bs, r))->Some_0;
                    assert forall|i: int| 0 <= i < ls.len() implies child_link_ok(
                        hi2,
                        hi2[h].level,
                        #[trigger] ls[i],
                    ) by {
                        assert(child_link_ok(hi1, hi1[h].level, ls[i]));
                    }
                }
            },
            None => {},
        }
    }
}

/// Node consistency only reads the stored chunks, so a blob-store change
/// that keeps them (marking durability, draining notifications) keeps it.
pub proof fn lemma_hi_wf_bs_stable(hi: HiView, bs1: BlobStoreView, bs2: BlobStoreView)
    requires
        hi_wf(hi, bs1),
        bs2.chunks == bs1.chunks,
    ensures
        hi_wf(hi, bs2),
{
    assert forall|h: Seq<u8>| #[trigger] hi.contains_key(h) implies node_ok(hi, bs2, h) by {
        assert(node_ok(hi, bs1, h));
    }
}

/// Data round trip, as a law: once a tree with chunk sequence `cs` is
/// recorded, any later state the store grows into — more inserts, more
/// stored chunks, flushes — still decodes the same root to exactly `cs`.
pub proof fn lemma_data_round_trip(
    hi1: HiView,
    bs1: BlobStoreView,
    hi2: HiView,
    bs2: BlobStoreView,
    h: Seq<u8>,
    cs: Seq<Seq<u8>>,
)
    requires
        hi_wf(hi1, bs1),
        hi1.contains_key(h),
        decode(hi1, bs1, h) == cs,
        hi_extends(hi1, hi2),
        bs_extends(bs1, bs2),
    ensures
        decode(hi2, bs2, h) == cs,
{
    lemma_decode_node_frame(hi1, bs1, hi2, bs2, h, hi1[h].level as nat);
    assert(hi2[h].level == hi1[h].level);
}

} // verus!
