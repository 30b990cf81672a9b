//! An in-memory blob store: chunks are handed over with `store`, located by
//! `ChunkRef`, and become durable at `flush`.
//!
//! The store's interface carries an on-commit notification with every
//! stored chunk, due once the containing blob is durably written.  Here
//! the notification's datum — the content hash to commit — is recorded
//! with the chunk ref, and `flush` hands the accumulated `(hash, ref)`
//! pairs back to the caller, which delivers them to the hash index.

use crate::codec::ChunkRef;
use crate::entry::clone_bytes;
use vstd::prelude::*;

verus! {

/// Mathematical image of the blob store.
pub ghost struct BlobStoreView {
    /// Every chunk ever stored, in order of arrival; one `store` call per
    /// element.
    pub chunks: Seq<Seq<u8>>,
    /// How many of the stored chunks sit in durably written blobs.
    pub durable: int,
    /// Commit notifications not yet delivered: `(hash, ref)` per chunk
    /// stored since the last flush.
    pub pending: Seq<(Seq<u8>, ChunkRef)>,
}

pub open spec fn commits_view(s: Seq<(Vec<u8>, ChunkRef)>) -> Seq<(Seq<u8>, ChunkRef)> {
    s.map_values(|p: (Vec<u8>, ChunkRef)| (p.0@, p.1))
}

pub struct BlobStore {
    chunks: Vec<Vec<u8>>,
    durable: usize,
    pending: Vec<(Vec<u8>, ChunkRef)>,
}

impl View for BlobStore {
    type V = BlobStoreView;

    closed spec fn view(&self) -> BlobStoreView {
        BlobStoreView {
            chunks: self.chunks@.map_values(|c: Vec<u8>| c@),
            durable: self.durable as int,
            pending: commits_view(self.pending@),
        }
    }
}

/// Does `r` locate a chunk in this store?
pub open spec fn ref_valid(bs: BlobStoreView, r: ChunkRef) -> bool {
    &&& (r.blob_id as int) < bs.chunks.len()
    &&& r.offset == 0
    &&& r.length as int == bs.chunks[r.blob_id as int].len()
}

/// The chunk a valid ref locates.
pub open spec fn chunk_at(bs: BlobStoreView, r: ChunkRef) -> Seq<u8> {
    bs.chunks[r.blob_id as int]
}

/// The store only grows: every chunk once stored stays unchanged, so refs
/// stay valid and resolve to the same bytes.
pub open spec fn bs_extends(b1: BlobStoreView, b2: BlobStoreView) -> bool {
    &&& b1.chunks.len() <= b2.chunks.len()
    &&& forall|i: int| 0 <= i < b1.chunks.len() ==> b1.chunks[i] == #[trigger] b2.chunks[i]
}

impl BlobStore {
    pub fn new() -> (s: BlobStore)
        ensures
            s@.chunks == Seq::<Seq<u8>>::empty(),
            s@.durable == 0,
            s@.pending == Seq::<(Seq<u8>, ChunkRef)>::empty(),
    {
        let s = BlobStore { chunks: Vec::new(), durable: 0, pending: Vec::new() };
        proof {
            assert(s@.chunks =~= Seq::<Seq<u8>>::empty());
            assert(s@.pending =~= Seq::<(Seq<u8>, ChunkRef)>::empty());
        }
        s
    }

    /// Accepts a chunk and answers with its ref at once; durability is
    /// still pending.  `hash` is the datum of the on-commit callback: the
    /// pair `(hash, ref)` is delivered back at the next `flush`.
    pub fn store(&mut self, chunk: Vec<u8>, hash: Vec<u8>) -> (r: ChunkRef)
        ensures
            final(self)@.chunks == old(self)@.chunks.push(chunk@),
            final(self)@.durable == old(self)@.durable,
            final(self)@.pending == old(self)@.pending.push((hash@, r)),
            r.blob_id as int == old(self)@.chunks.len(),
            r.offset == 0,
            ref_valid(final(self)@, r),
            chunk_at(final(self)@, r) == chunk@,
            bs_extends(old(self)@, final(self)@),
    {
        let r = ChunkRef {
            blob_id: self.chunks.len() as u64,
            offset: 0,
            length: chunk.len() as u64,
        };
        let ghost prev = self@;
        self.chunks.push(chunk);
        self.pending.push((hash, r));
        proof {
            assert(self@.chunks =~= prev.chunks.push(self.chunks@.last()@));
            assert(self@.pending =~= prev.pending.push((hash@, r)));
        }
        r
    }

    /// Hands back the chunk a ref locates, or nothing when the ref does
    /// not belong to this store.
    pub fn retrieve(&self, r: ChunkRef) -> (res: Option<Vec<u8>>)
        ensures
            match res {
                Some(c) => ref_valid(self@, r) && c@ == chunk_at(self@, r),
                None => !ref_valid(self@, r),
            },
    {
        if r.blob_id < self.chunks.len() as u64 {
            let i = r.blob_id as usize;
            if r.offset == 0 && r.length == self.chunks[i].len() as u64 {
                Some(clone_bytes(&self.chunks[i]))
            } else {
                None
            }
        } else {
            None
        }
    }

    /// Marks everything stored so far as durable and hands back the
    /// commit notifications accumulated since the last flush.
    pub fn flush(&mut self) -> (commits: Vec<(Vec<u8>, ChunkRef)>)
        ensures
            final(self)@.chunks == old(self)@.chunks,
            final(self)@.durable == final(self)@.chunks.len(),
            final(self)@.pending == Seq::<(Seq<u8>, ChunkRef)>::empty(),
            commits_view(commits@) == old(self)@.pending,
            bs_extends(old(self)@, final(self)@),
    {
        self.durable = self.chunks.len();
        let mut commits: Vec<(Vec<u8>, ChunkRef)> = Vec::new();
        core::mem::swap(&mut commits, &mut self.pending);
        proof {
            assert(self@.pending =~= Seq::<(Seq<u8>, ChunkRef)>::empty());
        }
        commits
    }

    /// How many `store` calls this store has accepted.
    pub fn store_count(&self) -> (n: usize)
        ensures
            n as int == self@.chunks.len(),
    {
        self.chunks.len()
    }
}

} // verus!
