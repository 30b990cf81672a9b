//! The adapter used by the hash-tree writer and reader: it resolves and
//! stores chunks against the hash index and the blob store, and carries
//! the reserve / commit deduplication protocol.

use crate::blob_store::{bs_extends, chunk_at, ref_valid, BlobStore, BlobStoreView};
use crate::codec::{hash_of, lemma_hash_of_injective, parse_links, ChunkRef};
use crate::entry::{clone_bytes, clone_opt_bytes, opt_bytes_view};
use crate::hash_index::{FetchRefReply, HashEntry, HashIndex, HashRecView, PayloadReply, ReserveReply};
use crate::model::{child_link_ok, chunk_is_new_node, hi_extends, hi_wf, new_chunks_recorded, node_ok, HiView};
use vstd::prelude::*;

verus! {

/// Mathematical image of the backend: the two collaborating stores.
pub ghost struct BackendView {
    pub hi: HiView,
    pub bs: BlobStoreView,
}

/// Commit notifications still queued in the blob store point at recorded
/// hashes that already carry the very ref being committed.
pub open spec fn pending_ok(hi: HiView, bs: BlobStoreView) -> bool {
    forall|i: int|
        0 <= i < bs.pending.len() ==> hi.contains_key((#[trigger] bs.pending[i]).0)
            && hi[bs.pending[i].0].pref == Some(bs.pending[i].1)
}

/// What a fetch by hash alone can resolve: the recorded ref's chunk.
pub open spec fn resolve_chunk(hi: HiView, bs: BlobStoreView, h: Seq<u8>) -> Option<Seq<u8>> {
    if hi.contains_key(h) {
        match hi[h].pref {
            Some(r) => if ref_valid(bs, r) {
                Some(chunk_at(bs, r))
            } else {
                None
            },
            None => None,
        }
    } else {
        None
    }
}

/// A cheap-to-own pairing of the hash index and the blob store.
pub struct HashStoreBackend {
    hash_index: HashIndex,
    blob_store: BlobStore,
}

impl View for HashStoreBackend {
    type V = BackendView;

    closed spec fn view(&self) -> BackendView {
        BackendView { hi: self.hash_index@, bs: self.blob_store@ }
    }
}

impl HashStoreBackend {
    /// The representation invariant of the owned hash index.
    pub closed spec fn inv(&self) -> bool {
        self.hash_index.wf()
    }

    /// Well-formed at a protocol boundary: consistent recorded nodes and
    /// commit queue.
    pub open spec fn wf(&self) -> bool {
        &&& self.inv()
        &&& hi_wf(self@.hi, self@.bs)
        &&& pending_ok(self@.hi, self@.bs)
    }

    pub fn new(hash_index: HashIndex, blob_store: BlobStore) -> (b: HashStoreBackend)
        requires
            hash_index.wf(),
        ensures
            b@.hi == hash_index@,
            b@.bs == blob_store@,
            b.inv(),
    {
        HashStoreBackend { hash_index, blob_store }
    }

    /// Delivers one queued commit notification to the hash index.
    pub fn deliver_commit(&mut self, hash: &Vec<u8>, r: ChunkRef)
        requires
            old(self).inv(),
            old(self)@.hi.contains_key(hash@),
            old(self)@.hi[hash@].pref == Some(r),
        ensures
            final(self).inv(),
            final(self)@.bs == old(self)@.bs,
            final(self)@.hi == old(self)@.hi.insert(
                hash@,
                HashRecView {
                    level: old(self)@.hi[hash@].level,
                    payload: old(self)@.hi[hash@].payload,
                    pref: Some(r),
                    committed: true,
                },
            ),
    {
        self.hash_index.commit(hash, r);
    }

    /// Flushes the hash index itself.
    pub fn flush_hash_index(&mut self)
        ensures
            final(self).inv() == old(self).inv(),
            final(self)@.hi == old(self)@.hi,
            final(self)@.bs == old(self)@.bs,
    {
        self.hash_index.flush();
    }

    /// Flushes the blob store, handing back its commit notifications.
    pub fn flush_blob_store(&mut self) -> (commits: Vec<(Vec<u8>, ChunkRef)>)
        ensures
            final(self).inv() == old(self).inv(),
            final(self)@.hi == old(self)@.hi,
            final(self)@.bs.chunks == old(self)@.bs.chunks,
            final(self)@.bs.durable == final(self)@.bs.chunks.len(),
            final(self)@.bs.pending == Seq::<(Seq<u8>, ChunkRef)>::empty(),
            crate::blob_store::commits_view(commits@) == old(self)@.bs.pending,
    {
        self.blob_store.flush()
    }

    /// How many chunks the blob store holds (one per accepted `Store`).
    pub fn blob_chunk_count(&self) -> (n: usize)
        ensures
            n as int == self@.bs.chunks.len(),
    {
        self.blob_store.store_count()
    }

    /// `HashExists` against the hash index.
    pub fn hash_exists(&self, hash: &Vec<u8>) -> (b: bool)
        requires
            self.inv(),
        ensures
            b == self@.hi.contains_key(hash@),
    {
        self.hash_index.hash_exists(hash)
    }

    /// Retrieves a chunk directly by its blob-store ref.
    pub fn fetch_chunk_from_persistent_ref(&self, chunk_ref: ChunkRef) -> (r: Option<Vec<u8>>)
        ensures
            match r {
                Some(c) => ref_valid(self@.bs, chunk_ref) && c@ == chunk_at(self@.bs, chunk_ref),
                None => !ref_valid(self@.bs, chunk_ref),
            },
    {
        self.blob_store.retrieve(chunk_ref)
    }

    /// Resolves a hash to its ref through the hash index, then retrieves.
    /// At a protocol boundary every recorded hash carries its ref, so the
    /// hash index never answers `Retry` here and an absent result means
    /// exactly "unknown hash or retrieval failure".
    pub fn fetch_chunk_from_hash(&self, hash: &Vec<u8>) -> (r: Option<Vec<u8>>)
        requires
            self.inv(),
            hi_wf(self@.hi, self@.bs),
            hash@.len() > 0,
        ensures
            opt_bytes_view(r) == resolve_chunk(self@.hi, self@.bs, hash@),
            r is None <==> !self@.hi.contains_key(hash@),
    {
        match self.hash_index.fetch_persistent_ref(hash) {
            FetchRefReply::PersistentRef(chunk_ref) => {
                proof {
                    assert(node_ok(self@.hi, self@.bs, hash@));
                }
                self.fetch_chunk_from_persistent_ref(chunk_ref)
            },
            FetchRefReply::HashNotKnown => None,
            FetchRefReply::Retry => {
                proof {
                    assert(node_ok(self@.hi, self@.bs, hash@));
                    assert(false);
                }
                vstd::pervasive::unreached()
            },
        }
    }

    /// Fetches a chunk, going straight to the blob store when a ref is at
    /// hand and resolving through the hash index otherwise.
    pub fn fetch_chunk(&self, hash: &Vec<u8>, persistent_ref: Option<ChunkRef>) -> (r: Option<
        Vec<u8>,
    >)
        requires
            self.inv(),
            hi_wf(self@.hi, self@.bs),
            hash@.len() > 0,
        ensures
            opt_bytes_view(r) == match persistent_ref {
                Some(pr) => if ref_valid(self@.bs, pr) {
                    Some(chunk_at(self@.bs, pr))
                } else {
                    None
                },
                None => resolve_chunk(self@.hi, self@.bs, hash@),
            },
    {
        if let Some(pr) = persistent_ref {
            return self.fetch_chunk_from_persistent_ref(pr);
        }
        self.fetch_chunk_from_hash(hash)
    }

    /// Resolves a hash to its chunk ref, re-asking on `Retry` until a
    /// terminal reply arrives.  `Retry` marks a reservation whose ref is
    /// not yet recorded; at a protocol boundary no such reservation is
    /// outstanding.
    pub fn fetch_persistent_ref(&self, hash: &Vec<u8>) -> (r: Option<ChunkRef>)
        requires
            self.inv(),
            hi_wf(self@.hi, self@.bs),
            hash@.len() > 0,
        ensures
            match r {
                Some(cr) => self@.hi.contains_key(hash@) && self@.hi[hash@].pref == Some(cr),
                None => !self@.hi.contains_key(hash@),
            },
    {
        loop
            invariant
                self.inv(),
                hi_wf(self@.hi, self@.bs),
            decreases 0int,
        {
            match self.hash_index.fetch_persistent_ref(hash) {
                FetchRefReply::PersistentRef(cr) => {
                    return Some(cr);
                },
                FetchRefReply::HashNotKnown => {
                    return None;
                },
                FetchRefReply::Retry => {
                    proof {
                        assert(node_ok(self@.hi, self@.bs, hash@));
                        assert(false);
                    }
                },
            }
        }
    }

    /// Fetches the opaque payload of an interior node.
    pub fn fetch_payload(&self, hash: &Vec<u8>) -> (r: Option<Vec<u8>>)
        requires
            self.inv(),
        ensures
            opt_bytes_view(r) == if self@.hi.contains_key(hash@) {
                self@.hi[hash@].payload
            } else {
                None::<Seq<u8>>
            },
    {
        match self.hash_index.fetch_payload(hash) {
            PayloadReply::Payload(p) => p,
            PayloadReply::HashNotKnown => None,
        }
    }

    /// The deduplication heart: reserve the hash; on `HashKnown`
    /// piggyback on the ref recorded by whoever came first, otherwise
    /// store the chunk and record its ref.
    pub fn insert_chunk(&mut self, hash: Vec<u8>, level: u64, payload: Option<Vec<u8>>, chunk: Vec<
        u8,
    >) -> (r: ChunkRef)
        requires
            old(self).wf(),
            hash@ == hash_of(level, chunk@),
            level == 0 ==> payload is None,
            level > 0 ==> {
                &&& opt_bytes_view(payload) == Some(chunk@)
                &&& match parse_links(chunk@) {
                    Some(ls) => ls.len() >= 1 && forall|i: int|
                        0 <= i < ls.len() ==> child_link_ok(old(self)@.hi, level, #[trigger] ls[i]),
                    None => false,
                }
            },
        ensures
            final(self).wf(),
            hi_extends(old(self)@.hi, final(self)@.hi),
            bs_extends(old(self)@.bs, final(self)@.bs),
            new_chunks_recorded(old(self)@.hi, final(self)@.hi, old(self)@.bs, final(self)@.bs),
            final(self)@.hi.contains_key(hash@),
            final(self)@.hi[hash@].level == level,
            final(self)@.hi[hash@].payload == opt_bytes_view(payload),
            final(self)@.hi[hash@].pref == Some(r),
            ref_valid(final(self)@.bs, r),
            chunk_at(final(self)@.bs, r) == chunk@,
            old(self)@.hi.contains_key(hash@) ==> {
                &&& final(self)@.hi == old(self)@.hi
                &&& final(self)@.bs.chunks == old(self)@.bs.chunks
                &&& final(self)@.bs.durable == old(self)@.bs.durable
                &&& final(self)@.bs.pending == old(self)@.bs.pending
            },
            !old(self)@.hi.contains_key(hash@) ==> {
                &&& final(self)@.hi == old(self)@.hi.insert(
                    hash@,
                    HashRecView {
                        level,
                        payload: opt_bytes_view(payload),
                        pref: Some(r),
                        committed: false,
                    },
                )
                &&& final(self)@.bs.chunks == old(self)@.bs.chunks.push(chunk@)
                &&& final(self)@.bs.durable == old(self)@.bs.durable
                &&& final(self)@.bs.pending == old(self)@.bs.pending.push((hash@, r))
            },
    {
        proof {
            crate::codec::lemma_hash_of_len(level, chunk@);
        }
        let prospective = HashEntry {
            hash: clone_bytes(&hash),
            level,
            payload: clone_opt_bytes(&payload),
            persistent_ref: None,
        };
        match self.hash_index.reserve(prospective) {
            ReserveReply::HashKnown => {
                // Someone came before us: piggyback on their result.
                let r_opt = self.fetch_persistent_ref(&hash);
                let r = r_opt.unwrap();
                proof {
                    let hi = self@.hi;
                    let bs = self@.bs;
                    assert(node_ok(hi, bs, hash@));
                    let block = chunk_at(bs, hi[hash@].pref->Some_0);
                    lemma_hash_of_injective(hi[hash@].level, block, level, chunk@);
                }
                r
            },
            ReserveReply::ReserveOk => {
                // We came first: this chunk is ours to store and commit.
                let ghost hi0 = old(self)@.hi;
                let ghost bs0 = old(self)@.bs;
                let ghost chunkv = chunk@;
                let r = self.blob_store.store(chunk, clone_bytes(&hash));
                let ghost hashv = hash@;
                let updated = HashEntry { hash, level, payload, persistent_ref: Some(r) };
                self.hash_index.update_reserved(updated);
                proof {
                    let hi2 = self@.hi;
                    let bs2 = self@.bs;
                    let rec = HashRecView {
                        level,
                        payload: opt_bytes_view(updated.payload),
                        pref: Some(r),
                        committed: false,
                    };
                    assert(hi2 =~= hi0.insert(hashv, rec));
                    assert(bs_extends(bs0, bs2));
                    assert(hi_extends(hi0, hi2));
                    assert forall|k: Seq<u8>| #[trigger] hi2.contains_key(k) implies node_ok(
                        hi2,
                        bs2,
                        k,
                    ) by {
                        if k == hashv {
                            assert(ref_valid(bs2, r));
                            assert(chunk_at(bs2, r) == chunkv);
                            if level > 0 {
                                let ls = parse_links(chunkv)->Some_0;
                                assert forall|i: int| 0 <= i < ls.len() implies child_link_ok(
                                    hi2,
                                    level,
                                    #[trigger] ls[i],
                                ) by {
                                    assert(child_link_ok(hi0, level, ls[i]));
                                }
                            }
                        } else {
                            assert(hi0.contains_key(k));
                            assert(node_ok(hi0, bs0, k));
                            assert(hi2[k] == hi0[k]);
                            match hi0[k].pref {
                                Some(kr) => {
                                    assert(chunk_at(bs2, kr) == chunk_at(bs0, kr));
                                    if hi0[k].level > 0 {
                                        let ls = parse_links(chunk_at(bs0, kr))->Some_0;
                                        assert forall|i: int|
                                            0 <= i < ls.len() implies child_link_ok(
                                            hi2,
                                            hi0[k].level,
                                            #[trigger] ls[i],
                                        ) by {
                                            assert(child_link_ok(hi0, hi0[k].level, ls[i]));
                                        }
                                    }
                                },
                                None => {},
                            }
                        }
                    }
                    assert(pending_ok(hi2, bs2));
                    assert forall|i: int|
                        bs0.chunks.len() <= i < bs2.chunks.len() implies #[trigger] chunk_is_new_node(
                        hi0,
                        hi2,
                        bs2,
                        i,
                    ) by {
                        assert(i == bs0.chunks.len());
                        assert(!hi0.contains_key(hashv) && hi2.contains_key(hashv) && match hi2[hashv].pref {
                            Some(pr) => pr.blob_id as int == i && chunk_at(bs2, pr) == bs2.chunks[i],
                            None => false,
                        });
                    }
                }
                r
            },
        }
    }
}

} // verus!
