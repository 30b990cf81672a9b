//! The hash-tree builder and reader.
//!
//! The writer accepts chunks one at a time and keeps one buffer of child
//! descriptors per tree level; when a buffer reaches the fan-out it is
//! summarized into an interior node one level up, and at finalization the
//! partial levels are collapsed upward until a single root survives.
//! Every node, leaf or interior, passes through the backend's
//! `insert_chunk`, so deduplication applies uniformly.  The reader walks
//! the recorded nodes back down and returns the leaf chunks in order.

use crate::blob_store::{bs_extends, chunk_at, ref_valid, BlobStoreView};
use crate::codec::{
    compute_hash, hash_of, link_bounded, lemma_hash_of_len, lemma_parse_ser_links, links_view,
    parse_links, parse_links_exec, serialize_links, ChunkRef, Link, LinkView,
};
use crate::entry::clone_bytes;
use crate::hash_store_backend::HashStoreBackend;
use crate::model::{
    child_link_ok, decode, decode_list, decode_node, hi_extends, hi_wf, lemma_decode_list_snoc,
    lemma_decode_list_frame, lemma_decode_node_frame, lemma_new_chunks_recorded_trans,
    new_chunks_recorded, node_ok, HiView,
};
use vstd::prelude::*;

verus! {

/// Mathematical images of chunk lists.
pub open spec fn chunks_view(s: Seq<Vec<u8>>) -> Seq<Seq<u8>> {
    s.map_values(|c: Vec<u8>| c@)
}

/// The per-level buffers, as link views.
pub open spec fn lview(levels: Seq<Vec<Link>>) -> Seq<Seq<LinkView>> {
    levels.map_values(|v: Vec<Link>| links_view(v@))
}

/// A buffered descriptor at level `i` points at a recorded node of that
/// level, with the ref the hash index holds for it.
pub open spec fn link_at_ok(hi: HiView, l: LinkView, i: int) -> bool {
    &&& hi.contains_key(l.hash)
    &&& hi[l.hash].level as int == i
    &&& hi[l.hash].pref == Some(l.pref)
    &&& link_bounded(l)
}

pub open spec fn links_valid(hi: HiView, lv: Seq<Seq<LinkView>>) -> bool {
    forall|i: int, j: int|
        0 <= i < lv.len() && 0 <= j < lv[i].len() ==> link_at_ok(hi, #[trigger] lv[i][j], i)
}

/// The chunks still represented by the buffers of levels below `i`:
/// higher levels first, each buffer left to right.
pub open spec fn pending_from(hi: HiView, bs: BlobStoreView, lv: Seq<Seq<LinkView>>, i: nat) -> Seq<
    Seq<u8>,
>
    decreases i,
{
    if i == 0 {
        Seq::empty()
    } else {
        decode_list(hi, bs, lv[i - 1], (i - 1) as nat) + pending_from(hi, bs, lv, (i - 1) as nat)
    }
}

/// What a finalized tree holds for an appended chunk sequence: the
/// chunks as appended, except that an empty sequence is recorded as a
/// single empty chunk, since a root node must exist.
pub open spec fn norm_chunks(cs: Seq<Seq<u8>>) -> Seq<Seq<u8>> {
    if cs.len() == 0 {
        seq![Seq::<u8>::empty()]
    } else {
        cs
    }
}

pub proof fn lemma_links_valid_frame(hi1: HiView, hi2: HiView, lv: Seq<Seq<LinkView>>)
    requires
        links_valid(hi1, lv),
        hi_extends(hi1, hi2),
    ensures
        links_valid(hi2, lv),
{
    assert forall|i: int, j: int| 0 <= i < lv.len() && 0 <= j < lv[i].len() implies link_at_ok(
        hi2,
        #[trigger] lv[i][j],
        i,
    ) by {
        assert(link_at_ok(hi1, lv[i][j], i));
    }
}

proof fn lemma_pending_congruent(
    hi: HiView,
    bs: BlobStoreView,
    lv1: Seq<Seq<LinkView>>,
    lv2: Seq<Seq<LinkView>>,
    i: nat,
)
    requires
        i <= lv1.len(),
        i <= lv2.len(),
        forall|j: int| 0 <= j < i ==> lv1[j] == lv2[j],
    ensures
        pending_from(hi, bs, lv1, i) == pending_from(hi, bs, lv2, i),
    decreases i,
{
    if i > 0 {
        lemma_pending_congruent(hi, bs, lv1, lv2, (i - 1) as nat);
    }
}

proof fn lemma_pending_empties(hi: HiView, bs: BlobStoreView, lv: Seq<Seq<LinkView>>, i: nat)
    requires
        i <= lv.len(),
        forall|j: int| 0 <= j < i ==> (#[trigger] lv[j]).len() == 0,
    ensures
        pending_from(hi, bs, lv, i) == Seq::<Seq<u8>>::empty(),
    decreases i,
{
    if i > 0 {
        lemma_pending_empties(hi, bs, lv, (i - 1) as nat);
        assert(decode_list(hi, bs, lv[i - 1], (i - 1) as nat) == Seq::<Seq<u8>>::empty());
        assert(Seq::<Seq<u8>>::empty() + Seq::<Seq<u8>>::empty() =~= Seq::<Seq<u8>>::empty());
    }
}

proof fn lemma_pending_same_above(
    hi: HiView,
    bs: BlobStoreView,
    lv1: Seq<Seq<LinkView>>,
    lv2: Seq<Seq<LinkView>>,
    base: nat,
    i: nat,
)
    requires
        base <= i,
        i <= lv1.len(),
        i <= lv2.len(),
        pending_from(hi, bs, lv1, base) == pending_from(hi, bs, lv2, base),
        forall|j: int| base <= j < i ==> lv1[j] == lv2[j],
    ensures
        pending_from(hi, bs, lv1, i) == pending_from(hi, bs, lv2, i),
    decreases i - base,
{
    if i > base {
        lemma_pending_same_above(hi, bs, lv1, lv2, base, (i - 1) as nat);
    }
}

proof fn lemma_pending_push_empty(hi: HiView, bs: BlobStoreView, lv: Seq<Seq<LinkView>>)
    ensures
        pending_from(hi, bs, lv.push(Seq::empty()), lv.len() + 1) == pending_from(
            hi,
            bs,
            lv,
            lv.len() as nat,
        ),
{
    let up = lv.push(Seq::empty());
    assert(up[lv.len() as int].len() == 0);
    assert(decode_list(hi, bs, up[lv.len() as int], lv.len() as nat) == Seq::<Seq<u8>>::empty());
    lemma_pending_congruent(hi, bs, up, lv, lv.len() as nat);
    assert(Seq::<Seq<u8>>::empty() + pending_from(hi, bs, up, lv.len() as nat) =~= pending_from(
        hi,
        bs,
        up,
        lv.len() as nat,
    ));
}

proof fn lemma_pending_append_leaf(
    hi: HiView,
    bs: BlobStoreView,
    lv: Seq<Seq<LinkView>>,
    l: LinkView,
    m: nat,
)
    requires
        1 <= m <= lv.len(),
    ensures
        pending_from(hi, bs, lv.update(0, lv[0].push(l)), m) == pending_from(hi, bs, lv, m)
            + decode_node(hi, bs, l.hash, 0),
    decreases m,
{
    let up = lv.update(0, lv[0].push(l));
    if m == 1 {
        lemma_decode_list_snoc(hi, bs, lv[0], l, 0);
        assert(up[0] == lv[0].push(l));
        assert(pending_from(hi, bs, up, 1) == decode_list(hi, bs, up[0], 0) + pending_from(
            hi,
            bs,
            up,
            0,
        ));
        assert(pending_from(hi, bs, up, 0) == Seq::<Seq<u8>>::empty());
        assert(pending_from(hi, bs, lv, 1) == decode_list(hi, bs, lv[0], 0) + pending_from(
            hi,
            bs,
            lv,
            0,
        ));
        assert(pending_from(hi, bs, lv, 0) == Seq::<Seq<u8>>::empty());
        assert((decode_list(hi, bs, lv[0], 0) + decode_node(hi, bs, l.hash, 0)) + Seq::<Seq<
            u8,
        >>::empty() =~= (decode_list(hi, bs, lv[0], 0) + Seq::<Seq<u8>>::empty()) + decode_node(
            hi,
            bs,
            l.hash,
            0,
        ));
    } else {
        lemma_pending_append_leaf(hi, bs, lv, l, (m - 1) as nat);
        assert(up[m - 1] == lv[m - 1]);
        assert(pending_from(hi, bs, up, m) == decode_list(hi, bs, up[m - 1], (m - 1) as nat)
            + pending_from(hi, bs, up, (m - 1) as nat));
        assert(pending_from(hi, bs, lv, m) == decode_list(hi, bs, lv[m - 1], (m - 1) as nat)
            + pending_from(hi, bs, lv, (m - 1) as nat));
        assert(decode_list(hi, bs, lv[m - 1], (m - 1) as nat) + (pending_from(
            hi,
            bs,
            lv,
            (m - 1) as nat,
        ) + decode_node(hi, bs, l.hash, 0)) =~= (decode_list(hi, bs, lv[m - 1], (m - 1) as nat)
            + pending_from(hi, bs, lv, (m - 1) as nat)) + decode_node(hi, bs, l.hash, 0));
    }
}

proof fn lemma_pending_frame(
    hi1: HiView,
    bs1: BlobStoreView,
    hi2: HiView,
    bs2: BlobStoreView,
    lv: Seq<Seq<LinkView>>,
    i: nat,
)
    requires
        hi_wf(hi1, bs1),
        hi_extends(hi1, hi2),
        bs_extends(bs1, bs2),
        links_valid(hi1, lv),
        i <= lv.len(),
    ensures
        pending_from(hi2, bs2, lv, i) == pending_from(hi1, bs1, lv, i),
    decreases i,
{
    if i > 0 {
        lemma_pending_frame(hi1, bs1, hi2, bs2, lv, (i - 1) as nat);
        assert forall|j: int| 0 <= j < lv[i - 1].len() implies hi1.contains_key(
            (#[trigger] lv[i - 1][j]).hash,
        ) && hi1[lv[i - 1][j].hash].level as nat == (i - 1) as nat by {
            assert(link_at_ok(hi1, lv[i - 1][j], i - 1));
        }
        lemma_decode_list_frame(hi1, bs1, hi2, bs2, lv[i - 1], (i - 1) as nat);
    }
}

/// The number of buffered descriptors over all levels.
pub open spec fn total_links(lv: Seq<Seq<LinkView>>) -> nat
    decreases lv.len(),
{
    if lv.len() == 0 {
        0
    } else {
        total_links(lv.drop_last()) + lv.last().len()
    }
}

proof fn lemma_total_update(lv: Seq<Seq<LinkView>>, k: int, v: Seq<LinkView>)
    requires
        0 <= k < lv.len(),
    ensures
        total_links(lv.update(k, v)) + lv[k].len() == total_links(lv) + v.len(),
    decreases lv.len(),
{
    let up = lv.update(k, v);
    if k == lv.len() - 1 {
        assert(up.drop_last() =~= lv.drop_last());
        assert(up.last() == v);
    } else {
        assert(up.drop_last() =~= lv.drop_last().update(k, v));
        assert(up.last() == lv.last());
        assert(lv.drop_last()[k] == lv[k]);
        lemma_total_update(lv.drop_last(), k, v);
    }
}

proof fn lemma_total_push(lv: Seq<Seq<LinkView>>, v: Seq<LinkView>)
    ensures
        total_links(lv.push(v)) == total_links(lv) + v.len(),
{
    assert(lv.push(v).drop_last() =~= lv);
    assert(lv.push(v).last() == v);
}

/// The per-level target shape after a collapse of level `k`: level `k`
/// emptied, one new descriptor appended one level up (adding that level
/// when `k` was the top).
pub open spec fn collapse_levels(lv: Seq<Seq<LinkView>>, k: int, l: LinkView) -> Seq<
    Seq<LinkView>,
> {
    let lv1 = if k + 1 == lv.len() {
        lv.push(Seq::empty())
    } else {
        lv
    };
    lv1.update(k, Seq::empty()).update(k + 1, lv1[k + 1].push(l))
}

proof fn lemma_pending_collapse(
    hi: HiView,
    bs: BlobStoreView,
    lv: Seq<Seq<LinkView>>,
    k: int,
    l: LinkView,
)
    requires
        0 <= k < lv.len(),
        forall|j: int| 0 <= j < k ==> (#[trigger] lv[j]).len() == 0,
        decode_node(hi, bs, l.hash, (k + 1) as nat) == decode_list(hi, bs, lv[k], k as nat),
    ensures
        pending_from(hi, bs, collapse_levels(lv, k, l), collapse_levels(lv, k, l).len() as nat)
            == pending_from(hi, bs, lv, lv.len() as nat),
{
    let lv1 = if k + 1 == lv.len() {
        lv.push(Seq::empty())
    } else {
        lv
    };
    let lv2 = collapse_levels(lv, k, l);
    let m1 = lv1.len() as nat;
    assert(lv2.len() == lv1.len());
    if k + 1 == lv.len() {
        lemma_pending_push_empty(hi, bs, lv);
    }
    assert(pending_from(hi, bs, lv1, m1) == pending_from(hi, bs, lv, lv.len() as nat));
    // the levels at and below k contribute nothing after the collapse
    assert(forall|j: int| 0 <= j <= k ==> (#[trigger] lv2[j]).len() == 0);
    lemma_pending_empties(hi, bs, lv2, (k + 1) as nat);
    lemma_pending_empties(hi, bs, lv1, k as nat);
    // level k + 1 absorbs level k's descriptors as one summary node
    assert(lv2[k + 1] == lv1[k + 1].push(l));
    lemma_decode_list_snoc(hi, bs, lv1[k + 1], l, (k + 1) as nat);
    assert(pending_from(hi, bs, lv2, (k + 2) as nat) == decode_list(hi, bs, lv2[k + 1], (k
        + 1) as nat) + pending_from(hi, bs, lv2, (k + 1) as nat));
    assert(pending_from(hi, bs, lv1, (k + 2) as nat) == decode_list(hi, bs, lv1[k + 1], (k
        + 1) as nat) + pending_from(hi, bs, lv1, (k + 1) as nat));
    assert(pending_from(hi, bs, lv1, (k + 1) as nat) == decode_list(hi, bs, lv1[k], k as nat)
        + pending_from(hi, bs, lv1, k as nat));
    assert(lv1[k] == lv[k]);
    assert((decode_list(hi, bs, lv1[k + 1], (k + 1) as nat) + decode_node(hi, bs, l.hash, (k
        + 1) as nat)) + Seq::<Seq<u8>>::empty() =~= decode_list(hi, bs, lv1[k + 1], (k + 1) as nat)
        + (decode_list(hi, bs, lv[k], k as nat) + Seq::<Seq<u8>>::empty()));
    assert(pending_from(hi, bs, lv2, (k + 2) as nat) == pending_from(hi, bs, lv1, (k + 2) as nat));
    lemma_pending_same_above(hi, bs, lv2, lv1, (k + 2) as nat, m1);
}

fn vec_index_mut<T>(v: &mut Vec<T>, i: usize) -> (element: &mut T)
    requires
        i < old(v).len(),
    ensures
        *element == old(v)@[i as int],
        final(v)@ == old(v)@.update(i as int, *final(element)),
{
    &mut v[i]
}

/// The hash-tree writer: per-level buffers of child descriptors plus the
/// ghost record of every chunk appended so far.
pub struct SimpleHashTreeWriter {
    fanout: usize,
    levels: Vec<Vec<Link>>,
    chunks: Ghost<Seq<Seq<u8>>>,
}

impl SimpleHashTreeWriter {
    /// The chunks appended so far.
    pub closed spec fn chunk_seq(self) -> Seq<Seq<u8>> {
        self.chunks@
    }

    pub closed spec fn spec_fanout(self) -> usize {
        self.fanout
    }

    /// Nothing appended yet.
    pub closed spec fn is_fresh(self) -> bool {
        self.levels@.len() == 0 && self.chunks@.len() == 0
    }

    /// Exactly one pending descriptor, at leaf level.
    pub closed spec fn is_single(self) -> bool {
        lview(self.levels@).len() == 1 && lview(self.levels@)[0].len() == 1
    }

    /// No pending descriptor at any level.
    pub closed spec fn has_no_nodes(self) -> bool {
        forall|j: int| 0 <= j < lview(self.levels@).len() ==> (#[trigger] lview(
            self.levels@,
        )[j]).len() == 0
    }

    /// Writer consistency relative to the backend: every buffered
    /// descriptor points at a recorded node of its level, and the buffers
    /// together still represent exactly the appended chunks.
    pub closed spec fn wf(self, hi: HiView, bs: BlobStoreView) -> bool {
        &&& 2 <= self.fanout
        &&& links_valid(hi, lview(self.levels@))
        &&& pending_from(hi, bs, lview(self.levels@), self.levels@.len() as nat) == self.chunks@
    }

    pub fn new(fanout: usize) -> (w: SimpleHashTreeWriter)
        requires
            2 <= fanout,
        ensures
            w.spec_fanout() == fanout,
            w.chunk_seq() == Seq::<Seq<u8>>::empty(),
            w.is_fresh(),
            w.has_no_nodes(),
            forall|hi: HiView, bs: BlobStoreView| w.wf(hi, bs),
    {
        let w = SimpleHashTreeWriter {
            fanout,
            levels: Vec::new(),
            chunks: Ghost(Seq::empty()),
        };
        proof {
            assert forall|hi: HiView, bs: BlobStoreView| w.wf(hi, bs) by {
                assert(lview(w.levels@).len() == 0);
            }
        }
        w
    }

    fn all_levels_empty(&self) -> (b: bool)
        ensures
            b == self.has_no_nodes(),
    {
        let mut i: usize = 0;
        while i < self.levels.len()
            invariant
                i <= self.levels@.len(),
                forall|j: int| 0 <= j < i ==> (#[trigger] lview(self.levels@)[j]).len() == 0,
            decreases self.levels@.len() - i,
        {
            if self.levels[i].len() > 0 {
                assert(lview(self.levels@)[i as int].len() > 0);
                return false;
            }
            i += 1;
        }
        true
    }

    /// Summarizes the whole buffer of level `k` into one interior node at
    /// level `k + 1`.
    fn collapse_into_parent(&mut self, backend: &mut HashStoreBackend, k: usize)
        requires
            old(backend).wf(),
            2 <= old(self).fanout,
            (k as int) < old(self).levels@.len(),
            old(self).levels@[k as int]@.len() >= 1,
            forall|j: int| 0 <= j < k ==> (#[trigger] lview(old(self).levels@)[j]).len() == 0,
            links_valid(old(backend)@.hi, lview(old(self).levels@)),
            pending_from(
                old(backend)@.hi,
                old(backend)@.bs,
                lview(old(self).levels@),
                old(self).levels@.len() as nat,
            ) == old(self).chunks@,
        ensures
            final(backend).wf(),
            final(self).fanout == old(self).fanout,
            final(self).chunks@ == old(self).chunks@,
            hi_extends(old(backend)@.hi, final(backend)@.hi),
            bs_extends(old(backend)@.bs, final(backend)@.bs),
            new_chunks_recorded(
                old(backend)@.hi,
                final(backend)@.hi,
                old(backend)@.bs,
                final(backend)@.bs,
            ),
            lview(final(self).levels@) == collapse_levels(
                lview(old(self).levels@),
                k as int,
                lview(final(self).levels@)[k as int + 1].last(),
            ),
            (k as int) + 1 < final(self).levels@.len(),
            final(self).levels@.len() == if (k as int) + 1 == old(self).levels@.len() {
                old(self).levels@.len() + 1
            } else {
                old(self).levels@.len()
            },
            forall|j: int| 0 <= j <= k ==> (#[trigger] lview(final(self).levels@)[j]).len() == 0,
            lview(final(self).levels@)[k as int + 1].len() == 1 + if (k as int) + 1 == old(
                self,
            ).levels@.len() {
                0int
            } else {
                lview(old(self).levels@)[k as int + 1].len() as int
            },
            links_valid(final(backend)@.hi, lview(final(self).levels@)),
            pending_from(
                final(backend)@.hi,
                final(backend)@.bs,
                lview(final(self).levels@),
                final(self).levels@.len() as nat,
            ) == old(self).chunks@,
            total_links(lview(final(self).levels@)) + old(self).levels@[k as int]@.len()
                == total_links(lview(old(self).levels@)) + 1,
    {
        let ghost hi0 = backend@.hi;
        let ghost bs0 = backend@.bs;
        let ghost lv0 = lview(self.levels@);
        let n_levels = self.levels.len();
        // take the whole buffer of level k
        let slot = vec_index_mut(&mut self.levels, k);
        let mut links: Vec<Link> = Vec::new();
        core::mem::swap(&mut links, slot);
        let ghost linksv = links_view(links@);
        proof {
            assert(lview(self.levels@) =~~= lv0.update(k as int, Seq::empty()));
            assert(linksv == lv0[k as int]);
        }
        // summarize it into an interior node one level up
        let block = serialize_links(&links);
        proof {
            assert(k < n_levels);
        }
        let parent_level = (k + 1) as u64;
        let h = compute_hash(parent_level, &block);
        let payload = Some(clone_bytes(&block));
        proof {
            lemma_parse_ser_links(linksv);
            assert forall|i: int| 0 <= i < linksv.len() implies child_link_ok(
                hi0,
                parent_level,
                #[trigger] linksv[i],
            ) by {
                assert(link_at_ok(hi0, lv0[k as int][i], k as int));
            }
        }
        let r = backend.insert_chunk(clone_bytes(&h), parent_level, payload, block);
        let ghost hi2 = backend@.hi;
        let ghost bs2 = backend@.bs;
        // append the summary descriptor to level k + 1
        if k + 1 == self.levels.len() {
            self.levels.push(Vec::new());
        }
        let ghost lv_mid = lview(self.levels@);
        let link = Link { hash: h, pref: r };
        let ghost linkv = link@;
        let slot2 = vec_index_mut(&mut self.levels, k + 1);
        slot2.push(link);
        proof {
            assert(link_bounded(linkv)) by {
                assert(h.len() == h@.len());
                assert(usize::MAX <= u64::MAX);
            }
            let lv_final = lview(self.levels@);
            assert(lv_final =~~= collapse_levels(lv0, k as int, linkv)) by {
                if k + 1 == lv0.len() {
                    assert(lv_mid =~~= lv0.update(k as int, Seq::empty()).push(Seq::empty()));
                    assert(lv0.update(k as int, Seq::empty()).push(Seq::empty()) =~~= lv0.push(
                        Seq::empty(),
                    ).update(k as int, Seq::empty()));
                } else {
                    assert(lv_mid =~~= lv0.update(k as int, Seq::empty()));
                }
            }
            // pending bookkeeping in the post-insert state
            lemma_pending_frame(hi0, bs0, hi2, bs2, lv0, lv0.len() as nat);
            assert(decode_node(hi2, bs2, linkv.hash, (k + 1) as nat) == decode_list(
                hi2,
                bs2,
                lv0[k as int],
                k as nat,
            )) by {
                assert(hi2.contains_key(linkv.hash));
                assert(hi2[linkv.hash].level == parent_level);
                assert(chunk_at(bs2, hi2[linkv.hash].pref->Some_0) == ser_links_of(linksv));
                assert(parse_links(ser_links_of(linksv)) == Some(linksv));
                lemma_decode_list_frame(hi0, bs0, hi2, bs2, lv0[k as int], k as nat);
                assert(forall|j: int| 0 <= j < lv0[k as int].len() ==> link_at_ok(
                    hi0,
                    #[trigger] lv0[k as int][j],
                    k as int,
                ));
            }
            lemma_pending_collapse(hi2, bs2, lv0, k as int, linkv);
            // every buffered descriptor still points at a recorded node
            lemma_links_valid_frame(hi0, hi2, lv0);
            assert forall|i: int, j: int|
                0 <= i < lv_final.len() && 0 <= j < lv_final[i].len() implies link_at_ok(
                hi2,
                #[trigger] lv_final[i][j],
                i,
            ) by {
                if i == k + 1 && j == lv_final[i].len() - 1 {
                    assert(lv_final[i][j] == linkv);
                } else if i == k + 1 {
                    assert(lv_final[i][j] == lv0[i][j]);
                    assert(link_at_ok(hi2, lv0[i][j], i));
                } else {
                    assert(lv_final[i][j] == lv0[i][j]);
                    assert(link_at_ok(hi2, lv0[i][j], i));
                }
            }
            // descriptor count: fanout-many in, one out
            if k + 1 == lv0.len() {
                lemma_total_update(lv0, k as int, Seq::empty());
                lemma_total_push(lv0.update(k as int, Seq::empty()), Seq::empty());
                let lv1 = lv0.update(k as int, Seq::empty()).push(Seq::empty());
                lemma_total_update(lv1, k as int + 1, lv1[k as int + 1].push(linkv));
                assert(lv_final =~~= lv1.update(k as int + 1, lv1[k as int + 1].push(linkv)));
            } else {
                lemma_total_update(lv0, k as int, Seq::empty());
                let lv1 = lv0.update(k as int, Seq::empty());
                lemma_total_update(lv1, k as int + 1, lv1[k as int + 1].push(linkv));
                assert(lv_final =~~= lv1.update(k as int + 1, lv1[k as int + 1].push(linkv)));
            }
        }
    }

    /// Appends one data chunk: the chunk becomes a leaf node, and full
    /// buffers cascade upward into interior nodes.
    pub fn append(&mut self, backend: &mut HashStoreBackend, chunk: Vec<u8>)
        requires
            old(backend).wf(),
            old(self).wf(old(backend)@.hi, old(backend)@.bs),
        ensures
            final(backend).wf(),
            final(self).wf(final(backend)@.hi, final(backend)@.bs),
            final(self).chunk_seq() == old(self).chunk_seq().push(chunk@),
            final(self).spec_fanout() == old(self).spec_fanout(),
            !final(self).has_no_nodes(),
            hi_extends(old(backend)@.hi, final(backend)@.hi),
            bs_extends(old(backend)@.bs, final(backend)@.bs),
            new_chunks_recorded(
                old(backend)@.hi,
                final(backend)@.hi,
                old(backend)@.bs,
                final(backend)@.bs,
            ),
            old(self).is_fresh() ==> final(self).is_single(),
            final(backend)@.hi.contains_key(hash_of(0, chunk@)),
            old(self).is_fresh() && old(backend)@.hi.contains_key(hash_of(0, chunk@)) ==> {
                &&& final(backend)@.hi == old(backend)@.hi
                &&& final(backend)@.bs.chunks == old(backend)@.bs.chunks
                &&& final(backend)@.bs.durable == old(backend)@.bs.durable
                &&& final(backend)@.bs.pending == old(backend)@.bs.pending
            },
            old(self).is_fresh() && !old(backend)@.hi.contains_key(hash_of(0, chunk@))
                ==> final(backend)@.bs.chunks == old(backend)@.bs.chunks.push(chunk@),
    {
        let ghost hi0 = backend@.hi;
        let ghost bs0 = backend@.bs;
        let ghost lv0 = lview(self.levels@);
        let ghost chunkv = chunk@;
        let h = compute_hash(0, &chunk);
        let r = backend.insert_chunk(clone_bytes(&h), 0, None, chunk);
        proof {
            lemma_pending_frame(hi0, bs0, backend@.hi, backend@.bs, lv0, lv0.len() as nat);
            lemma_links_valid_frame(hi0, backend@.hi, lv0);
        }
        if self.levels.len() == 0 {
            self.levels.push(Vec::new());
            proof {
                assert(lview(self.levels@) =~~= lv0.push(Seq::empty()));
                lemma_pending_push_empty(backend@.hi, backend@.bs, lv0);
            }
        }
        let ghost lv_base = lview(self.levels@);
        let link = Link { hash: h, pref: r };
        let ghost linkv = link@;
        let slot = vec_index_mut(&mut self.levels, 0);
        slot.push(link);
        self.chunks = Ghost(self.chunks@.push(chunkv));
        proof {
            assert(link_bounded(linkv)) by {
                assert(h.len() == h@.len());
                assert(usize::MAX <= u64::MAX);
            }
            let lv1 = lview(self.levels@);
            assert(lv1 =~~= lv_base.update(0, lv_base[0].push(linkv)));
            lemma_pending_append_leaf(backend@.hi, backend@.bs, lv_base, linkv, lv_base.len() as nat);
            assert(decode_node(backend@.hi, backend@.bs, linkv.hash, 0) =~= seq![chunkv]);
            assert forall|i: int, j: int|
                0 <= i < lv1.len() && 0 <= j < lv1[i].len() implies link_at_ok(
                backend@.hi,
                #[trigger] lv1[i][j],
                i,
            ) by {
                if i == 0 && j == lv1[0].len() - 1 {
                    assert(lv1[i][j] == linkv);
                } else {
                    assert(lv1[i][j] == lv_base[i][j]);
                    assert(link_at_ok(backend@.hi, lv_base[i][j], i));
                }
            }
            // the buffers now represent exactly the appended chunks
            assert(lv_base.len() >= 1);
            assert(pending_from(backend@.hi, backend@.bs, lv_base, lv_base.len() as nat) == old(
                self,
            ).chunk_seq());
            assert(lv1.len() == lv_base.len());
            assert(pending_from(backend@.hi, backend@.bs, lv1, lv_base.len() as nat) == old(
                self,
            ).chunk_seq() + decode_node(backend@.hi, backend@.bs, linkv.hash, 0));
            assert(old(self).chunk_seq() + seq![chunkv] =~= old(self).chunk_seq().push(chunkv));
            assert(self.levels@[0]@.len() == lv1[0].len());
            assert(pending_from(
                backend@.hi,
                backend@.bs,
                lview(self.levels@),
                self.levels@.len() as nat,
            ) == self.chunks@);
        }
        // cascade full buffers upward
        let mut k: usize = 0;
        while self.levels[k].len() == self.fanout
            invariant
                backend.wf(),
                2 <= self.fanout,
                (k as int) < self.levels@.len(),
                forall|j: int| 0 <= j < k ==> (#[trigger] lview(self.levels@)[j]).len() == 0,
                self.levels@[k as int]@.len() >= 1,
                links_valid(backend@.hi, lview(self.levels@)),
                pending_from(
                    backend@.hi,
                    backend@.bs,
                    lview(self.levels@),
                    self.levels@.len() as nat,
                ) == self.chunks@,
                self.chunks@ == old(self).chunk_seq().push(chunk@),
                self.fanout == old(self).spec_fanout(),
                hi_extends(old(backend)@.hi, backend@.hi),
                bs_extends(old(backend)@.bs, backend@.bs),
                new_chunks_recorded(old(backend)@.hi, backend@.hi, old(backend)@.bs, backend@.bs),
                old(self).is_fresh() ==> {
                    &&& self.levels@.len() == 1
                    &&& lview(self.levels@)[0].len() == 1
                    &&& k == 0
                },
                backend@.hi.contains_key(hash_of(0, chunk@)),
                old(self).is_fresh() && old(backend)@.hi.contains_key(hash_of(0, chunk@)) ==> {
                    &&& backend@.hi == old(backend)@.hi
                    &&& backend@.bs.chunks == old(backend)@.bs.chunks
                    &&& backend@.bs.durable == old(backend)@.bs.durable
                    &&& backend@.bs.pending == old(backend)@.bs.pending
                },
                old(self).is_fresh() && !old(backend)@.hi.contains_key(hash_of(0, chunk@))
                    ==> backend@.bs.chunks == old(backend)@.bs.chunks.push(chunk@),
            decreases total_links(lview(self.levels@)),
        {
            proof {
                if old(self).is_fresh() {
                    assert(self.levels@[k as int]@.len() == 1);
                    assert(false);
                }
            }
            let ghost hprev = backend@.hi;
            let ghost bprev = backend@.bs;
            self.collapse_into_parent(backend, k);
            proof {
                lemma_new_chunks_recorded_trans(
                    old(backend)@.hi,
                    hprev,
                    backend@.hi,
                    old(backend)@.bs,
                    bprev,
                    backend@.bs,
                );
            }
            let nl = self.levels.len();
            proof {
                assert(k < nl);
            }
            k += 1;
        }
        proof {
            assert(lview(self.levels@)[k as int].len() >= 1);
            assert(!self.has_no_nodes());
            if old(self).is_fresh() {
                assert(self.is_single());
            }
        }
    }

    /// Finalizes the tree: collapses the partial levels upward and
    /// returns the root's content address and chunk ref.  An empty tree
    /// is finalized as a single empty chunk.
    pub fn hash(self, backend: &mut HashStoreBackend) -> (res: (Vec<u8>, ChunkRef))
        requires
            old(backend).wf(),
            self.wf(old(backend)@.hi, old(backend)@.bs),
        ensures
            final(backend).wf(),
            hi_extends(old(backend)@.hi, final(backend)@.hi),
            bs_extends(old(backend)@.bs, final(backend)@.bs),
            new_chunks_recorded(
                old(backend)@.hi,
                final(backend)@.hi,
                old(backend)@.bs,
                final(backend)@.bs,
            ),
            final(backend)@.hi.contains_key(res.0@),
            final(backend)@.hi[res.0@].pref == Some(res.1),
            decode(final(backend)@.hi, final(backend)@.bs, res.0@) == if self.has_no_nodes() {
                seq![Seq::<u8>::empty()]
            } else {
                self.chunk_seq()
            },
            res.0@.len() > 0,
            self.is_single() ==> {
                &&& final(backend)@.hi == old(backend)@.hi
                &&& final(backend)@.bs.chunks == old(backend)@.bs.chunks
                &&& final(backend)@.bs.durable == old(backend)@.bs.durable
                &&& final(backend)@.bs.pending == old(backend)@.bs.pending
            },
    {
        let ghost target = if self.has_no_nodes() {
            seq![Seq::<u8>::empty()]
        } else {
            self.chunk_seq()
        };
        let ghost was_single = self.is_single();
        let mut w = self;
        if w.all_levels_empty() {
            proof {
                lemma_pending_empties(
                    backend@.hi,
                    backend@.bs,
                    lview(w.levels@),
                    w.levels@.len() as nat,
                );
            }
            w.append(backend, Vec::new());
            proof {
                assert(w.chunks@ =~= target);
            }
        }
        let mut k: usize = 0;
        loop
            invariant
                backend.wf(),
                2 <= w.fanout,
                (k as int) < w.levels@.len(),
                forall|j: int| 0 <= j < k ==> (#[trigger] lview(w.levels@)[j]).len() == 0,
                exists|j: int|
                    k <= j < lview(w.levels@).len() && (#[trigger] lview(w.levels@)[j]).len() >= 1,
                links_valid(backend@.hi, lview(w.levels@)),
                pending_from(backend@.hi, backend@.bs, lview(w.levels@), w.levels@.len() as nat)
                    == target,
                w.chunks@ == target,
                target == if self.has_no_nodes() {
                    seq![Seq::<u8>::empty()]
                } else {
                    self.chunk_seq()
                },
                was_single == self.is_single(),
                hi_extends(old(backend)@.hi, backend@.hi),
                bs_extends(old(backend)@.bs, backend@.bs),
                new_chunks_recorded(old(backend)@.hi, backend@.hi, old(backend)@.bs, backend@.bs),
                was_single ==> {
                    &&& backend@.hi == old(backend)@.hi
                    &&& backend@.bs.chunks == old(backend)@.bs.chunks
                    &&& backend@.bs.durable == old(backend)@.bs.durable
                    &&& backend@.bs.pending == old(backend)@.bs.pending
                    &&& k == 0
                    &&& lview(w.levels@).len() == 1
                    &&& lview(w.levels@)[0].len() == 1
                },
            decreases 2 * (w.levels@.len() - k) - (if w.levels@[k as int]@.len() == 1 {
                1int
            } else {
                0int
            }),
        {
            let nl = w.levels.len();
            let cnt = w.levels[k].len();
            if cnt == 0 {
                if k + 1 == nl {
                    proof {
                        let j = choose|j: int|
                            k <= j < lview(w.levels@).len() && (#[trigger] lview(
                                w.levels@,
                            )[j]).len() >= 1;
                        assert(false);
                    }
                    return vstd::pervasive::unreached();
                }
                k += 1;
            } else if cnt == 1 && k + 1 == nl {
                // the sole surviving node is the root
                let ghost lvp = lview(w.levels@);
                let slot = vec_index_mut(&mut w.levels, k);
                let link_opt = slot.pop();
                let link = link_opt.unwrap();
                proof {
                    let hi = backend@.hi;
                    let bs = backend@.bs;
                    let linkv = link@;
                    assert(lvp[k as int] =~= seq![linkv]);
                    assert(link_at_ok(hi, linkv, k as int));
                    lemma_pending_empties(hi, bs, lvp, k as nat);
                    assert(pending_from(hi, bs, lvp, (k + 1) as nat) == decode_list(
                        hi,
                        bs,
                        lvp[k as int],
                        k as nat,
                    ) + pending_from(hi, bs, lvp, k as nat));
                    assert(decode_list(hi, bs, seq![linkv], k as nat) == decode_node(
                        hi,
                        bs,
                        linkv.hash,
                        k as nat,
                    ) + decode_list(hi, bs, seq![linkv].subrange(1, 1), k as nat));
                    assert(seq![linkv].subrange(1, 1) =~= Seq::<LinkView>::empty());
                    assert(decode_node(hi, bs, linkv.hash, k as nat) + Seq::<Seq<u8>>::empty()
                        + Seq::<Seq<u8>>::empty() =~= decode_node(hi, bs, linkv.hash, k as nat));
                    assert(decode_node(hi, bs, linkv.hash, k as nat) == target);
                    assert(decode(hi, bs, linkv.hash) == decode_node(hi, bs, linkv.hash, k as nat));
                    assert(node_ok(hi, bs, linkv.hash));
                    lemma_hash_of_len(
                        hi[linkv.hash].level,
                        chunk_at(bs, hi[linkv.hash].pref->Some_0),
                    );
                }
                return (link.hash, link.pref);
            } else {
                proof {
                    if was_single {
                        assert(false);
                    }
                }
                let ghost hprev = backend@.hi;
                let ghost bprev = backend@.bs;
                w.collapse_into_parent(backend, k);
                proof {
                    lemma_new_chunks_recorded_trans(
                        old(backend)@.hi,
                        hprev,
                        backend@.hi,
                        old(backend)@.bs,
                        bprev,
                        backend@.bs,
                    );
                }
                let nl2 = w.levels.len();
                proof {
                    assert(k < nl2);
                }
                k += 1;
            }
        }
    }
}

/// The serialized child list, by name, for proofs inside this module.
pub open spec fn ser_links_of(ls: Seq<LinkView>) -> Seq<u8> {
    crate::codec::ser_links(ls)
}

/// Reads back the tree rooted at a recorded content address: the leaf
/// chunks in order.
pub fn tree_read(backend: &HashStoreBackend, hash: &Vec<u8>) -> (r: Option<Vec<Vec<u8>>>)
    requires
        backend.wf(),
    ensures
        match r {
            Some(cs) => backend@.hi.contains_key(hash@) && chunks_view(cs@) == decode(
                backend@.hi,
                backend@.bs,
                hash@,
            ),
            None => !backend@.hi.contains_key(hash@),
        },
{
    if !backend.hash_exists(hash) {
        return None;
    }
    let ghost lvl = backend@.hi[hash@].level as nat;
    Some(read_node(backend, hash, Ghost(lvl)))
}

fn read_node(backend: &HashStoreBackend, hash: &Vec<u8>, Ghost(lvl): Ghost<nat>) -> (cs: Vec<
    Vec<u8>,
>)
    requires
        backend.wf(),
        backend@.hi.contains_key(hash@),
        backend@.hi[hash@].level as nat == lvl,
    ensures
        chunks_view(cs@) == decode_node(backend@.hi, backend@.bs, hash@, lvl),
    decreases lvl,
{
    let ghost hi = backend@.hi;
    let ghost bs = backend@.bs;
    proof {
        assert(node_ok(hi, bs, hash@));
        lemma_hash_of_len(hi[hash@].level, chunk_at(bs, hi[hash@].pref->Some_0));
    }
    let payload = backend.fetch_payload(hash);
    match payload {
        None => {
            // a leaf: its block is the chunk itself
            proof {
                assert(hi[hash@].level == 0);
            }
            let chunk_opt = backend.fetch_chunk(hash, None);
            let chunk = chunk_opt.unwrap();
            let mut out: Vec<Vec<u8>> = Vec::new();
            out.push(chunk);
            proof {
                assert(chunks_view(out@) =~= decode_node(hi, bs, hash@, lvl));
            }
            out
        },
        Some(p) => {
            // an interior node: descend into its children in order
            proof {
                assert(hi[hash@].level > 0);
                assert(p@ == chunk_at(bs, hi[hash@].pref->Some_0));
            }
            let links_opt = parse_links_exec(&p);
            let links = links_opt.unwrap();
            let ghost lsv = links_view(links@);
            let mut out: Vec<Vec<u8>> = Vec::new();
            let mut i: usize = 0;
            while i < links.len()
                invariant
                    backend.wf(),
                    backend@.hi == hi,
                    backend@.bs == bs,
                    hi.contains_key(hash@),
                    node_ok(hi, bs, hash@),
                    hi[hash@].level as nat == lvl,
                    lvl >= 1,
                    lsv == links_view(links@),
                    parse_links(chunk_at(bs, hi[hash@].pref->Some_0)) == Some(lsv),
                    i <= links@.len(),
                    chunks_view(out@) == decode_list(hi, bs, lsv.take(i as int), (lvl - 1) as nat),
                decreases links@.len() - i,
            {
                proof {
                    assert(child_link_ok(hi, hi[hash@].level, lsv[i as int]));
                }
                let mut part = read_node(backend, &links[i].hash, Ghost((lvl - 1) as nat));
                proof {
                    assert(lsv.take(i + 1 as int) =~= lsv.take(i as int).push(lsv[i as int]));
                    lemma_decode_list_snoc(hi, bs, lsv.take(i as int), lsv[i as int], (lvl - 1) as nat);
                    assert(chunks_view(out@ + part@) =~= chunks_view(out@) + chunks_view(part@));
                }
                out.append(&mut part);
                i += 1;
            }
            proof {
                assert(lsv.take(links@.len() as int) =~= lsv);
                assert(decode_node(hi, bs, hash@, lvl) == decode_list(hi, bs, lsv, (lvl - 1) as nat));
            }
            out
        },
    }
}

} // verus!
