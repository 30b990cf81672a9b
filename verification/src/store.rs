//! The key-store actor: `Insert`, `ListDir` and `Flush` over the key
//! index, the hash index and the blob store.

use crate::blob_store::{bs_extends, chunk_at, ref_valid, BlobStore, BlobStoreView};
use crate::codec::{hash_of, ChunkRef};
use crate::entry::{clone_bytes, opt_bytes_view, same_meta, Entry, EntryView};
use crate::hash_index::HashIndex;
use crate::hash_store_backend::{pending_ok, HashStoreBackend};
use crate::key_index::{
    children_of, has_key, ki_wf, lemma_children_of_complete, lemma_lookup_spec_properties,
    lookup_exact_spec, set_row_data, upsert_row, KeyIndex, KeyIndexView, RowView,
};
use crate::model::{decode, hi_extends, hi_wf, lemma_new_chunks_recorded_trans, new_chunks_recorded, node_ok, HiView};
use crate::tree::{chunks_view, norm_chunks, tree_read, SimpleHashTreeWriter};
use vstd::prelude::*;

verus! {

/// An inbound request.  `Insert` carries the entry and, when the key has
/// data, its chunk sequence (already materialized from the caller's lazy
/// source; an absent sequence covers both "no data" and "source turned
/// out unreadable").
pub enum Msg {
    Insert(Entry, Option<Vec<Vec<u8>>>),
    ListDir(Option<u64>),
    Flush,
}

/// One `ListDir` element: the entry and the chunk ref of its root.  An
/// entry whose `data_hash` is present can be opened with `fetch_data`.
pub type DirElem = (Entry, Option<ChunkRef>);

pub enum Reply {
    Id(u64),
    ListResult(Vec<DirElem>),
    FlushOk,
}

/// A best-effort size-mismatch notice: the file changed between
/// discovery and ingestion.  `grew` distinguishes a file that grew from
/// one that shrank (or could not be fully read).
pub struct SizeWarning {
    pub name: Vec<u8>,
    pub wanted: u64,
    pub got: u64,
    pub grew: bool,
}

pub ghost struct WarningView {
    pub name: Seq<u8>,
    pub wanted: u64,
    pub got: u64,
    pub grew: bool,
}

impl View for SizeWarning {
    type V = WarningView;

    open spec fn view(&self) -> WarningView {
        WarningView { name: self.name@, wanted: self.wanted, got: self.got, grew: self.grew }
    }
}

pub open spec fn size_warning_of(name: Seq<u8>, wanted: u64, got: u64) -> Option<WarningView> {
    if wanted < got {
        Some(WarningView { name, wanted, got, grew: true })
    } else if wanted > got {
        Some(WarningView { name, wanted, got, grew: false })
    } else {
        None
    }
}

/// Decides whether reading `got` bytes against an expected `wanted`
/// deserves a warning, and which one.
pub fn file_size_warning(name: &Vec<u8>, wanted: u64, got: u64) -> (r: Option<SizeWarning>)
    ensures
        match r {
            Some(w) => size_warning_of(name@, wanted, got) == Some(w@),
            None => size_warning_of(name@, wanted, got) is None,
        },
{
    if wanted < got {
        Some(SizeWarning { name: clone_bytes(name), wanted, got, grew: true })
    } else if wanted > got {
        Some(SizeWarning { name: clone_bytes(name), wanted, got, grew: false })
    } else {
        None
    }
}

/// The warnings one ingestion emits.
pub open spec fn warnings_emitted(name: Seq<u8>, dlen: Option<u64>, got: u64) -> Seq<WarningView> {
    match dlen {
        Some(want) => match size_warning_of(name, want, got) {
            Some(w) => seq![w],
            None => Seq::empty(),
        },
        None => Seq::empty(),
    }
}

/// The byte count of a chunk sequence, saturating at the counter width.
pub open spec fn sum_sat(cs: Seq<Seq<u8>>) -> u64
    decreases cs.len(),
{
    if cs.len() == 0 {
        0
    } else {
        let rest = sum_sat(cs.drop_last());
        if rest + cs.last().len() > u64::MAX {
            u64::MAX
        } else {
            (rest + cs.last().len()) as u64
        }
    }
}

/// The unchanged-entry fast path: the key index holds a row matching the
/// entry's placement and metadata exactly, that row records a root hash,
/// and the hash index knows the hash.
pub open spec fn insert_fast_path(ki: KeyIndexView, hi: HiView, e: EntryView) -> bool {
    match lookup_exact_spec(ki.rows, e) {
        Some(row) => match row.0.data_hash {
            Some(h) => hi.contains_key(h),
            None => false,
        },
        None => false,
    }
}

/// The id an insert replies with: the matched row's, or the next fresh
/// one.
pub open spec fn insert_reply_id(ki: KeyIndexView, e: EntryView) -> u64 {
    match lookup_exact_spec(ki.rows, e) {
        Some(row) => row.0.id->Some_0,
        None => ki.next_id,
    }
}

/// The rows after the key-index phase of an insert: the matched row is
/// reused as it stands; otherwise the entry is stored under a fresh id.
pub open spec fn rows_after_lookup(ki: KeyIndexView, e: EntryView) -> Seq<RowView> {
    match lookup_exact_spec(ki.rows, e) {
        Some(_) => ki.rows,
        None => upsert_row(ki.rows, (EntryView { id: Some(ki.next_id), ..e }, None)),
    }
}

/// The expected length the size check runs against: the stored row's, or
/// the inserted entry's.
pub open spec fn row_data_length(ki: KeyIndexView, e: EntryView) -> Option<u64> {
    match lookup_exact_spec(ki.rows, e) {
        Some(row) => row.0.data_length,
        None => e.data_length,
    }
}

/// Every row that records a root hash resolves: the hash is on record
/// and the row carries the very chunk ref the hash index holds.
pub open spec fn rows_resolve(rows: Seq<RowView>, hi: HiView, bs: BlobStoreView) -> bool {
    forall|i: int|
        0 <= i < rows.len() ==> {
            let row = #[trigger] rows[i];
            match row.0.data_hash {
                Some(h) => hi.contains_key(h) && row.1 == hi[h].pref,
                None => row.1 is None,
            }
        }
}

/// Mathematical image of the whole key store.
pub ghost struct StoreView {
    pub ki: KeyIndexView,
    pub hi: HiView,
    pub bs: BlobStoreView,
    pub warnings: Seq<WarningView>,
}

pub struct Store {
    index: KeyIndex,
    backend: HashStoreBackend,
    warnings: Vec<SizeWarning>,
}

impl View for Store {
    type V = StoreView;

    closed spec fn view(&self) -> StoreView {
        StoreView {
            ki: self.index@,
            hi: self.backend@.hi,
            bs: self.backend@.bs,
            warnings: self.warnings@.map_values(|w: SizeWarning| w@),
        }
    }
}

/// Consistency of the whole store at a request boundary.
pub open spec fn store_wf(s: StoreView) -> bool {
    &&& ki_wf(s.ki)
    &&& hi_wf(s.hi, s.bs)
    &&& pending_ok(s.hi, s.bs)
    &&& rows_resolve(s.ki.rows, s.hi, s.bs)
}

/// Flush ordering, as a law: in a well-formed store — in particular
/// right after `FlushOk` — every `data_hash` recorded in the key index
/// resolves via the hash index to a chunk ref the blob store can
/// retrieve.
pub proof fn lemma_flush_resolves(s: StoreView)
    requires
        store_wf(s),
    ensures
        forall|i: int|
            0 <= i < s.ki.rows.len() ==> match (#[trigger] s.ki.rows[i]).0.data_hash {
                Some(h) => {
                    &&& s.hi.contains_key(h)
                    &&& s.hi[h].pref is Some
                    &&& ref_valid(s.bs, s.hi[h].pref->Some_0)
                },
                None => true,
            },
{
    assert forall|i: int| 0 <= i < s.ki.rows.len() implies match (#[trigger] s.ki.rows[i]).0
        .data_hash {
        Some(h) => {
            &&& s.hi.contains_key(h)
            &&& s.hi[h].pref is Some
            &&& ref_valid(s.bs, s.hi[h].pref->Some_0)
        },
        None => true,
    } by {
        match s.ki.rows[i].0.data_hash {
            Some(h) => {
                assert(node_ok(s.hi, s.bs, h));
            },
            None => {},
        }
    }
}

/// Entry-level idempotence, as a law: once a row matching an entry's
/// metadata records a root hash the hash index knows, re-inserting that
/// entry takes the fast path — `handle` then answers the stored id and
/// leaves every store untouched, by its contract.
pub proof fn lemma_unchanged_reinsert(ki: KeyIndexView, hi: HiView, e: EntryView, i: int)
    requires
        ki_wf(ki),
        0 <= i < ki.rows.len(),
        same_meta(ki.rows[i].0, e),
        ki.rows[i].0.data_hash is Some,
        hi.contains_key(ki.rows[i].0.data_hash->Some_0),
    ensures
        insert_fast_path(ki, hi, e),
        insert_reply_id(ki, e) == ki.rows[i].0.id->Some_0,
{
    lemma_lookup_spec_properties(ki.rows, e);
    match lookup_exact_spec(ki.rows, e) {
        Some(row) => {
            let j = choose|j: int|
                0 <= j < ki.rows.len() && #[trigger] ki.rows[j] == row && same_meta(row.0, e);
            if i != j {
                assert(same_meta(ki.rows[i].0, ki.rows[j].0));
                assert(false);
            }
        },
        None => {
            assert(!same_meta(ki.rows[i].0, e));
        },
    }
}

impl Store {
    /// The representation invariants of the owned components.
    pub closed spec fn inv(&self) -> bool {
        self.backend.inv()
    }

    pub open spec fn wf(&self) -> bool {
        &&& self.inv()
        &&& store_wf(self@)
    }

    pub fn new(index: KeyIndex, hash_index: HashIndex, blob_store: BlobStore) -> (s: Store)
        requires
            hash_index.wf(),
            ki_wf(index@),
            hi_wf(hash_index@, blob_store@),
            pending_ok(hash_index@, blob_store@),
            rows_resolve(index@.rows, hash_index@, blob_store@),
        ensures
            s.wf(),
            s@.ki == index@,
            s@.hi == hash_index@,
            s@.bs == blob_store@,
            s@.warnings == Seq::<WarningView>::empty(),
    {
        let s = Store {
            index,
            backend: HashStoreBackend::new(hash_index, blob_store),
            warnings: Vec::new(),
        };
        proof {
            assert(s@.warnings =~= Seq::<WarningView>::empty());
        }
        s
    }

    /// A store over fresh, empty in-memory components.
    pub fn new_for_testing() -> (s: Store)
        ensures
            s.wf(),
            s@.ki.rows == Seq::<RowView>::empty(),
            s@.ki.next_id == 1,
            s@.hi == Map::<Seq<u8>, crate::hash_index::HashRecView>::empty(),
            s@.bs.chunks == Seq::<Seq<u8>>::empty(),
            s@.bs.pending == Seq::<(Seq<u8>, ChunkRef)>::empty(),
            s@.warnings == Seq::<WarningView>::empty(),
    {
        let ki = KeyIndex::new();
        let hi = HashIndex::new();
        let bs = BlobStore::new();
        Store::new(ki, hi, bs)
    }

    /// A fresh hash-tree writer with fan-out 8 over this store's backend.
    pub fn hash_tree_writer(&mut self) -> (w: SimpleHashTreeWriter)
        ensures
            *final(self) == *old(self),
            w.spec_fanout() == 8,
            w.chunk_seq() == Seq::<Seq<u8>>::empty(),
            w.is_fresh(),
            w.has_no_nodes(),
            forall|hi: HiView, bs: BlobStoreView| w.wf(hi, bs),
    {
        SimpleHashTreeWriter::new(8)
    }

    /// Opens the data stream recorded under a root hash: the chunk
    /// sequence, in order.
    pub fn fetch_data(&self, hash: &Vec<u8>) -> (r: Option<Vec<Vec<u8>>>)
        requires
            self.wf(),
        ensures
            match r {
                Some(cs) => self@.hi.contains_key(hash@) && chunks_view(cs@) == decode(
                    self@.hi,
                    self@.bs,
                    hash@,
                ),
                None => !self@.hi.contains_key(hash@),
            },
    {
        tree_read(&self.backend, hash)
    }

    /// How many chunks the blob store has been asked to `Store`.
    pub fn store_count(&self) -> (n: usize)
        ensures
            n as int == self@.bs.chunks.len(),
    {
        self.backend.blob_chunk_count()
    }

    /// The id the key index will assign next.  `Insert` asks its caller
    /// for headroom below the counter's width; a shell can check it here.
    pub fn next_key_id(&self) -> (n: u64)
        ensures
            n == self@.ki.next_id,
    {
        self.index.next_id()
    }

    /// Hands out and clears the accumulated size warnings.
    pub fn take_warnings(&mut self) -> (ws: Vec<SizeWarning>)
        ensures
            final(self)@.ki == old(self)@.ki,
            final(self)@.hi == old(self)@.hi,
            final(self)@.bs == old(self)@.bs,
            final(self)@.warnings == Seq::<WarningView>::empty(),
            ws@.map_values(|w: SizeWarning| w@) == old(self)@.warnings,
            final(self).wf() == old(self).wf(),
    {
        let mut ws: Vec<SizeWarning> = Vec::new();
        core::mem::swap(&mut ws, &mut self.warnings);
        proof {
            assert(self@.warnings =~= Seq::<WarningView>::empty());
        }
        ws
    }

    /// Flushes downstream in dependency order: blob store, then hash
    /// index, then key index.  The blob store's commit notifications are
    /// delivered to the hash index in between.
    #[verifier::loop_isolation(false)]
    pub fn flush(&mut self)
        requires
            old(self).wf(),
        ensures
            final(self).wf(),
            final(self)@.ki == old(self)@.ki,
            final(self)@.warnings == old(self)@.warnings,
            hi_extends(old(self)@.hi, final(self)@.hi),
            forall|k: Seq<u8>|
                final(self)@.hi.contains_key(k) == old(self)@.hi.contains_key(k),
            final(self)@.bs.chunks == old(self)@.bs.chunks,
            final(self)@.bs.durable == final(self)@.bs.chunks.len(),
            final(self)@.bs.pending == Seq::<(Seq<u8>, ChunkRef)>::empty(),
    {
        let ghost hi0 = self@.hi;
        let ghost bs0 = self@.bs;
        let commits = self.backend.flush_blob_store();
        let ghost bs1 = self@.bs;
        let ghost cv = crate::blob_store::commits_view(commits@);
        let mut i: usize = 0;
        while i < commits.len()
            invariant
                self.inv(),
                self@.ki == old(self)@.ki,
                self@.warnings == old(self)@.warnings,
                self@.bs == bs1,
                i <= commits@.len(),
                cv == crate::blob_store::commits_view(commits@),
                hi_extends(hi0, self@.hi),
                forall|k: Seq<u8>| self@.hi.contains_key(k) == hi0.contains_key(k),
                forall|j: int|
                    0 <= j < cv.len() ==> self@.hi.contains_key((#[trigger] cv[j]).0)
                        && self@.hi[cv[j].0].pref == Some(cv[j].1),
            decreases commits@.len() - i,
        {
            let ghost hprev = self@.hi;
            proof {
                assert(cv[i as int] == (commits@[i as int].0@, commits@[i as int].1));
            }
            self.backend.deliver_commit(&commits[i].0, commits[i].1);
            proof {
                let h = cv[i as int].0;
                assert forall|k: Seq<u8>| hprev.contains_key(k) implies {
                    &&& self@.hi.contains_key(k)
                    &&& self@.hi[k].level == hprev[k].level
                    &&& self@.hi[k].payload == hprev[k].payload
                    &&& self@.hi[k].pref == hprev[k].pref
                } by {
                    if k == h {
                        assert(hprev[h].pref == Some(cv[i as int].1));
                    }
                }
                assert forall|j: int| 0 <= j < cv.len() implies self@.hi.contains_key(
                    (#[trigger] cv[j]).0,
                ) && self@.hi[cv[j].0].pref == Some(cv[j].1) by {
                    assert(hprev.contains_key(cv[j].0));
                }
            }
            i += 1;
        }
        proof {
            crate::model::lemma_hi_wf_mutual(hi0, self@.hi, bs0);
            crate::model::lemma_hi_wf_bs_stable(self@.hi, bs0, bs1);
            assert(rows_resolve(self@.ki.rows, self@.hi, self@.bs)) by {
                assert forall|r: int| 0 <= r < self@.ki.rows.len() implies {
                    let row = #[trigger] self@.ki.rows[r];
                    match row.0.data_hash {
                        Some(h) => self@.hi.contains_key(h) && row.1 == self@.hi[h].pref,
                        None => row.1 is None,
                    }
                } by {
                    assert(self@.ki.rows[r] == old(self)@.ki.rows[r]);
                }
            }
        }
        self.backend.flush_hash_index();
        self.index.flush();
    }

    /// The key-index phase of an insert: resolves or creates the row and
    /// answers the entry's id at once, so an actor shell can reply before
    /// ingestion starts.  The flag says whether the unchanged-entry fast
    /// path applies — then nothing is left to do.
    pub fn insert_begin(&mut self, e: Entry) -> (r: (Entry, bool))
        requires
            old(self).wf(),
            e@.id is None,
            e@.data_hash is None,
            old(self)@.ki.next_id < u64::MAX,
        ensures
            final(self).wf(),
            r.1 == insert_fast_path(old(self)@.ki, old(self)@.hi, e@),
            r.0@.id == Some(insert_reply_id(old(self)@.ki, e@)),
            same_meta(r.0@, e@),
            r.0@.data_length == row_data_length(old(self)@.ki, e@),
            final(self)@.hi == old(self)@.hi,
            final(self)@.bs == old(self)@.bs,
            final(self)@.warnings == old(self)@.warnings,
            r.1 ==> final(self)@.ki == old(self)@.ki,
            !r.1 ==> {
                &&& final(self)@.ki.rows == rows_after_lookup(old(self)@.ki, e@)
                &&& final(self)@.ki.next_id as int == match lookup_exact_spec(
                    old(self)@.ki.rows,
                    e@,
                ) {
                    Some(_) => old(self)@.ki.next_id as int,
                    None => old(self)@.ki.next_id + 1,
                }
                &&& exists|i: int|
                    0 <= i < final(self)@.ki.rows.len()
                        && (#[trigger] final(self)@.ki.rows[i]).0.id == r.0@.id
            },
    {
        let ghost ev = e@;
        let looked = self.index.lookup_exact(&e);
        proof {
            lemma_lookup_spec_properties(self@.ki.rows, ev);
        }
        let entry = match looked {
            Some(row) => {
                let fast = match &row.data_hash {
                    Some(h) => self.backend.hash_exists(h),
                    None => false,
                };
                if fast {
                    proof {
                        let j = choose|j: int|
                            0 <= j < self@.ki.rows.len() && #[trigger] self@.ki.rows[j]
                                == lookup_exact_spec(self@.ki.rows, ev)->Some_0 && same_meta(
                                lookup_exact_spec(self@.ki.rows, ev)->Some_0.0,
                                ev,
                            );
                        assert(self@.ki.rows[j].0.id is Some);
                    }
                    return (row, true);
                }
                row
            },
            None => self.index.insert(e),
        };
        proof {
            match lookup_exact_spec(old(self)@.ki.rows, ev) {
                Some(rowv) => {
                    let j = choose|j: int|
                        0 <= j < old(self)@.ki.rows.len() && #[trigger] old(self)@.ki.rows[j]
                            == rowv && same_meta(rowv.0, ev);
                    assert(old(self)@.ki.rows[j].0.id is Some);
                },
                None => {},
            }
            assert(self@.ki.rows == rows_after_lookup(old(self)@.ki, ev));
            assert(entry@.id == Some(insert_reply_id(old(self)@.ki, ev)));
            match lookup_exact_spec(old(self)@.ki.rows, ev) {
                Some(_) => {
                    assert(rows_resolve(self@.ki.rows, self@.hi, self@.bs));
                },
                None => {
                    lemma_rows_resolve_upsert(
                        old(self)@.ki.rows,
                        (EntryView { id: Some(old(self)@.ki.next_id), ..ev }, None),
                        self@.hi,
                        self@.bs,
                    );
                },
            }
            lemma_mid_has_id(old(self)@.ki, ev);
        }
        (entry, false)
    }

    /// The ingestion phase of an insert: streams the chunks through a
    /// fresh hash-tree writer and records the root (or the absence of
    /// data) on the row `insert_begin` answered.
    #[verifier::loop_isolation(false)]
    pub fn insert_data(&mut self, entry: &Entry, data: Option<Vec<Vec<u8>>>)
        requires
            old(self).wf(),
            entry@.id is Some,
            exists|i: int|
                0 <= i < old(self)@.ki.rows.len() && (#[trigger] old(self)@.ki.rows[i]).0.id
                    == entry@.id,
        ensures
            final(self).wf(),
            hi_extends(old(self)@.hi, final(self)@.hi),
            bs_extends(old(self)@.bs, final(self)@.bs),
            new_chunks_recorded(old(self)@.hi, final(self)@.hi, old(self)@.bs, final(self)@.bs),
            final(self)@.ki.next_id == old(self)@.ki.next_id,
            match data {
                None => {
                    &&& final(self)@.hi == old(self)@.hi
                    &&& final(self)@.bs == old(self)@.bs
                    &&& final(self)@.ki.rows == set_row_data(
                        old(self)@.ki.rows,
                        entry@.id->Some_0,
                        None::<Seq<u8>>,
                        None::<ChunkRef>,
                    )
                    &&& final(self)@.warnings == old(self)@.warnings
                },
                Some(cs) => {
                    &&& exists|h: Seq<u8>, r: ChunkRef|
                        {
                            &&& final(self)@.ki.rows == #[trigger] set_row_data(
                                old(self)@.ki.rows,
                                entry@.id->Some_0,
                                Some(h),
                                Some(r),
                            )
                            &&& final(self)@.hi.contains_key(h)
                            &&& final(self)@.hi[h].pref == Some(r)
                            &&& decode(final(self)@.hi, final(self)@.bs, h) == norm_chunks(
                                chunks_view(cs@),
                            )
                        }
                    &&& cs@.len() == 1 ==> final(self)@.hi.contains_key(hash_of(0, cs@[0]@))
                    &&& cs@.len() == 1 && old(self)@.hi.contains_key(hash_of(0, cs@[0]@))
                        ==> final(self)@.bs.chunks == old(self)@.bs.chunks
                    &&& cs@.len() == 1 && !old(self)@.hi.contains_key(hash_of(0, cs@[0]@))
                        ==> final(self)@.bs.chunks == old(self)@.bs.chunks.push(cs@[0]@)
                    &&& final(self)@.warnings == old(self)@.warnings + warnings_emitted(
                        entry@.name,
                        entry@.data_length,
                        sum_sat(chunks_view(cs@)),
                    )
                },
            },
    {
        let ghost mid_ki = self@.ki;
        let id = entry.id.unwrap();
        match data {
            None => {
                let ok = self.index.update_data_hash(entry, None, None);
                proof {
                    lemma_set_row_data_resolve(
                        mid_ki.rows,
                        id,
                        None::<Seq<u8>>,
                        None::<ChunkRef>,
                        self@.hi,
                        self@.bs,
                    );
                }
            },
            Some(chunks_vec) => {
                let ghost full = chunks_view(chunks_vec@);
                let ghost hi_in = self@.hi;
                let ghost bs_in = self@.bs;
                let mut tree = self.hash_tree_writer();
                let mut bytes_read: u64 = 0;
                let mut ci: usize = 0;
                while ci < chunks_vec.len()
                    invariant
                        self.inv(),
                        hi_wf(self@.hi, self@.bs),
                        pending_ok(self@.hi, self@.bs),
                        self@.ki == mid_ki,
                        self@.warnings == old(self)@.warnings,
                        ci <= chunks_vec@.len(),
                        full == chunks_view(chunks_vec@),
                        tree.wf(self@.hi, self@.bs),
                        tree.spec_fanout() == 8,
                        tree.chunk_seq() == full.take(ci as int),
                        ci > 0 ==> !tree.has_no_nodes(),
                        ci == 0 ==> tree.is_fresh(),
                        ci == 0 ==> tree.has_no_nodes(),
                        bytes_read == sum_sat(full.take(ci as int)),
                        hi_extends(hi_in, self@.hi),
                        bs_extends(bs_in, self@.bs),
                        new_chunks_recorded(hi_in, self@.hi, bs_in, self@.bs),
                        ci == 0 ==> self@.hi == hi_in && self@.bs == bs_in,
                        full.len() == 1 && ci > 0 ==> tree.is_single()
                            && self@.hi.contains_key(hash_of(0, full[0])),
                        full.len() == 1 && hi_in.contains_key(hash_of(0, full[0]))
                            ==> self@.bs.chunks == bs_in.chunks,
                        full.len() == 1 && ci > 0 && !hi_in.contains_key(hash_of(0, full[0]))
                            ==> self@.bs.chunks == bs_in.chunks.push(full[0]),
                    decreases chunks_vec@.len() - ci,
                {
                    let chunk = clone_bytes(&chunks_vec[ci]);
                    let cl = chunk.len() as u64;
                    if cl > u64::MAX - bytes_read {
                        bytes_read = u64::MAX;
                    } else {
                        bytes_read = bytes_read + cl;
                    }
                    let ghost hprev = self@.hi;
                    let ghost bprev = self@.bs;
                    tree.append(&mut self.backend, chunk);
                    proof {
                        lemma_new_chunks_recorded_trans(
                            hi_in,
                            hprev,
                            self@.hi,
                            bs_in,
                            bprev,
                            self@.bs,
                        );
                        assert(full.take(ci + 1 as int).drop_last() =~= full.take(ci as int));
                        assert(full.take(ci + 1 as int) =~= full.take(ci as int).push(
                            full[ci as int],
                        ));
                    }
                    ci += 1;
                }
                proof {
                    assert(full.take(full.len() as int) =~= full);
                }
                if let Some(want) = entry.data_length {
                    if let Some(w) = file_size_warning(&entry.name, want, bytes_read) {
                        let ghost before = self@.warnings;
                        let ghost wv = w@;
                        self.warnings.push(w);
                        proof {
                            assert(self@.warnings =~= before.push(wv));
                            assert(before.push(wv) =~= before + seq![wv]);
                        }
                    } else {
                        proof {
                            assert(old(self)@.warnings + Seq::<WarningView>::empty() =~= old(
                                self,
                            )@.warnings);
                        }
                    }
                } else {
                    proof {
                        assert(old(self)@.warnings + Seq::<WarningView>::empty() =~= old(
                            self,
                        )@.warnings);
                    }
                }
                proof {
                    assert(self@.warnings == old(self)@.warnings + warnings_emitted(
                        entry@.name,
                        entry@.data_length,
                        sum_sat(full),
                    ));
                }
                let ghost tree_empty = tree.has_no_nodes();
                let ghost tree_cs = tree.chunk_seq();
                let ghost tree_single = tree.is_single();
                let ghost hi_loop = self@.hi;
                let ghost bs_loop = self@.bs;
                let (root, root_ref) = tree.hash(&mut self.backend);
                proof {
                    assert(hi_extends(hi_in, self@.hi));
                    assert(bs_extends(bs_in, self@.bs));
                    lemma_new_chunks_recorded_trans(
                        hi_in,
                        hi_loop,
                        self@.hi,
                        bs_in,
                        bs_loop,
                        self@.bs,
                    );
                    lemma_rows_resolve_extends(mid_ki.rows, hi_in, bs_in, self@.hi, self@.bs);
                    if full.len() == 0 {
                        assert(tree_empty);
                        assert(decode(self@.hi, self@.bs, root@) == seq![Seq::<u8>::empty()]);
                        assert(norm_chunks(full) == seq![Seq::<u8>::empty()]);
                    } else {
                        assert(!tree_empty);
                        assert(decode(self@.hi, self@.bs, root@) == tree_cs);
                        assert(tree_cs == full);
                    }
                    if full.len() == 1 {
                        assert(tree_single);
                        assert(self@.bs.chunks == bs_loop.chunks);
                        assert(self@.hi.contains_key(hash_of(0, full[0])));
                    }
                }
                let ok = self.index.update_data_hash(entry, Some(root), Some(root_ref));
                proof {
                    lemma_set_row_data_resolve(
                        mid_ki.rows,
                        id,
                        Some(root@),
                        Some(root_ref),
                        self@.hi,
                        self@.bs,
                    );
                }
            },
        }
    }

    /// Processes one request and answers it.
    #[verifier::loop_isolation(false)]
    pub fn handle(&mut self, msg: Msg) -> (reply: Reply)
        requires
            old(self).wf(),
            match msg {
                Msg::Insert(e, _) => {
                    &&& e@.id is None
                    &&& e@.data_hash is None
                    &&& old(self)@.ki.next_id < u64::MAX
                },
                _ => true,
            },
        ensures
            final(self).wf(),
            match msg {
                Msg::Flush => {
                    &&& reply is FlushOk
                    &&& final(self)@.ki == old(self)@.ki
                    &&& final(self)@.warnings == old(self)@.warnings
                    &&& hi_extends(old(self)@.hi, final(self)@.hi)
                    &&& forall|k: Seq<u8>|
                        final(self)@.hi.contains_key(k) == old(self)@.hi.contains_key(k)
                    &&& final(self)@.bs.chunks == old(self)@.bs.chunks
                    &&& final(self)@.bs.durable == final(self)@.bs.chunks.len()
                    &&& final(self)@.bs.pending == Seq::<(Seq<u8>, ChunkRef)>::empty()
                },
                Msg::ListDir(parent) => {
                    &&& final(self)@ == old(self)@
                    &&& match reply {
                        Reply::ListResult(elems) => elems@.map_values(
                            |p: DirElem| (p.0@, p.1),
                        ) == children_of(old(self)@.ki.rows, parent),
                        _ => false,
                    }
                },
                Msg::Insert(e, data) => {
                    &&& hi_extends(old(self)@.hi, final(self)@.hi)
                    &&& bs_extends(old(self)@.bs, final(self)@.bs)
                    &&& new_chunks_recorded(
                        old(self)@.hi,
                        final(self)@.hi,
                        old(self)@.bs,
                        final(self)@.bs,
                    )
                    &&& reply == Reply::Id(insert_reply_id(old(self)@.ki, e@))
                    &&& insert_fast_path(old(self)@.ki, old(self)@.hi, e@) ==> final(self)@
                        == old(self)@
                    &&& !insert_fast_path(old(self)@.ki, old(self)@.hi, e@) ==> {
                        let id = insert_reply_id(old(self)@.ki, e@);
                        let mid = rows_after_lookup(old(self)@.ki, e@);
                        &&& final(self)@.ki.next_id as int == match lookup_exact_spec(
                            old(self)@.ki.rows,
                            e@,
                        ) {
                            Some(_) => old(self)@.ki.next_id as int,
                            None => old(self)@.ki.next_id + 1,
                        }
                        &&& match data {
                            None => {
                                &&& final(self)@.hi == old(self)@.hi
                                &&& final(self)@.bs == old(self)@.bs
                                &&& final(self)@.ki.rows == set_row_data(
                                    mid,
                                    id,
                                    None::<Seq<u8>>,
                                    None::<ChunkRef>,
                                )
                                &&& final(self)@.warnings == old(self)@.warnings
                            },
                            Some(cs) => {
                                &&& exists|h: Seq<u8>, r: ChunkRef|
                                    {
                                        &&& final(self)@.ki.rows == #[trigger] set_row_data(
                                            mid,
                                            id,
                                            Some(h),
                                            Some(r),
                                        )
                                        &&& final(self)@.hi.contains_key(h)
                                        &&& final(self)@.hi[h].pref == Some(r)
                                        &&& decode(final(self)@.hi, final(self)@.bs, h)
                                            == norm_chunks(chunks_view(cs@))
                                    }
                                &&& cs@.len() == 1 ==> final(self)@.hi.contains_key(
                                    hash_of(0, cs@[0]@),
                                )
                                &&& (cs@.len() == 1 && old(self)@.hi.contains_key(
                                    hash_of(0, cs@[0]@),
                                ) ==> final(self)@.bs.chunks == old(self)@.bs.chunks)
                                &&& (cs@.len() == 1 && !old(self)@.hi.contains_key(
                                    hash_of(0, cs@[0]@),
                                ) ==> final(self)@.bs.chunks == old(self)@.bs.chunks.push(
                                    cs@[0]@,
                                ))
                                &&& final(self)@.warnings == old(self)@.warnings
                                    + warnings_emitted(
                                    e@.name,
                                    row_data_length(old(self)@.ki, e@),
                                    sum_sat(chunks_view(cs@)),
                                )
                            },
                        }
                    }
                },
            },
    {
        match msg {
            Msg::Flush => {
                self.flush();
                Reply::FlushOk
            },
            Msg::ListDir(parent) => {
                let elems = self.index.list_dir(parent);
                Reply::ListResult(elems)
            },
            Msg::Insert(e, data) => {
                let ghost ev = e@;
                let (entry, fast) = self.insert_begin(e);
                let id = entry.id.unwrap();
                if fast {
                    return Reply::Id(id);
                }
                let ghost ki_mid = self@.ki;
                self.insert_data(&entry, data);
                proof {
                    assert(entry@.name == ev.name);
                    assert(entry@.data_length == row_data_length(old(self)@.ki, ev));
                    assert(entry@.id->Some_0 == insert_reply_id(old(self)@.ki, ev));
                    assert(ki_mid.rows == rows_after_lookup(old(self)@.ki, ev));
                }
                Reply::Id(id)
            },
                }
    }
}

/// A row inserted or reused for an entry stands in the rows that come
/// out of the key-index phase, under the replied id and with the entry's
/// placement and metadata.
proof fn lemma_mid_has_id(ki: KeyIndexView, e: EntryView)
    requires
        ki_wf(ki),
    ensures
        exists|i: int|
            {
                &&& 0 <= i < rows_after_lookup(ki, e).len()
                &&& (#[trigger] rows_after_lookup(ki, e)[i]).0.id == Some(insert_reply_id(ki, e))
                &&& same_meta(rows_after_lookup(ki, e)[i].0, e)
            },
{
    let mid = rows_after_lookup(ki, e);
    let id = insert_reply_id(ki, e);
    lemma_lookup_spec_properties(ki.rows, e);
    match lookup_exact_spec(ki.rows, e) {
        Some(rowv) => {
            let j = choose|j: int|
                0 <= j < ki.rows.len() && #[trigger] ki.rows[j] == rowv && same_meta(rowv.0, e);
            assert(mid[j].0.id == Some(id) && same_meta(mid[j].0, e));
        },
        None => {
            let rv = EntryView { id: Some(ki.next_id), ..e };
            assert(same_meta(rv, e));
            if has_key(ki.rows, rv) {
                let kidx = choose|i: int|
                    0 <= i < ki.rows.len() && crate::entry::same_key(
                        (#[trigger] ki.rows[i]).0,
                        rv,
                    );
                assert(mid[kidx] == (rv, None::<ChunkRef>));
                assert(mid[kidx].0.id == Some(id) && same_meta(mid[kidx].0, e));
            } else {
                assert(mid[ki.rows.len() as int] == (rv, None::<ChunkRef>));
                assert(same_meta(mid[ki.rows.len() as int].0, e));
            }
        },
    }
}

/// Identity round trip, as a law: the row an insert records — reused or
/// fresh, its data fields then set — is listed under the entry's parent
/// with exactly the inserted identity, name and metadata.
pub proof fn lemma_inserted_entry_listed(
    ki: KeyIndexView,
    e: EntryView,
    dh: Option<Seq<u8>>,
    dr: Option<ChunkRef>,
)
    requires
        ki_wf(ki),
    ensures
        exists|r: RowView|
            {
                &&& #[trigger] children_of(
                    set_row_data(rows_after_lookup(ki, e), insert_reply_id(ki, e), dh, dr),
                    e.parent_id,
                ).contains(r)
                &&& same_meta(r.0, e)
                &&& r.0.id == Some(insert_reply_id(ki, e))
                &&& r.0.data_hash == dh
                &&& r.1 == dr
            },
{
    let mid = rows_after_lookup(ki, e);
    let id = insert_reply_id(ki, e);
    let out = set_row_data(mid, id, dh, dr);
    lemma_mid_has_id(ki, e);
    let j = choose|j: int|
        {
            &&& 0 <= j < mid.len()
            &&& (#[trigger] mid[j]).0.id == Some(id)
            &&& same_meta(mid[j].0, e)
        };
    assert(out[j] == (EntryView { data_hash: dh, ..mid[j].0 }, dr));
    assert(out[j].0.parent_id == e.parent_id);
    lemma_children_of_complete(out, e.parent_id, j);
    assert(children_of(out, e.parent_id).contains(out[j]));
}

/// Rows that resolved keep resolving as the hash index grows.
proof fn lemma_rows_resolve_extends(
    rows: Seq<RowView>,
    hi1: HiView,
    bs1: BlobStoreView,
    hi2: HiView,
    bs2: BlobStoreView,
)
    requires
        rows_resolve(rows, hi1, bs1),
        hi_extends(hi1, hi2),
    ensures
        rows_resolve(rows, hi2, bs2),
{
    assert forall|i: int| 0 <= i < rows.len() implies {
        let row = #[trigger] rows[i];
        match row.0.data_hash {
            Some(h) => hi2.contains_key(h) && row.1 == hi2[h].pref,
            None => row.1 is None,
        }
    } by {
        assert(rows[i] == rows[i]);
    }
}

/// Upserting a dataless row keeps every row resolving.
proof fn lemma_rows_resolve_upsert(
    rows: Seq<RowView>,
    r: RowView,
    hi: HiView,
    bs: BlobStoreView,
)
    requires
        rows_resolve(rows, hi, bs),
        r.0.data_hash is None,
        r.1 is None,
    ensures
        rows_resolve(upsert_row(rows, r), hi, bs),
{
    let out = upsert_row(rows, r);
    assert forall|i: int| 0 <= i < out.len() implies {
        let row = #[trigger] out[i];
        match row.0.data_hash {
            Some(h) => hi.contains_key(h) && row.1 == hi[h].pref,
            None => row.1 is None,
        }
    } by {
        if has_key(rows, r.0) {
            if crate::entry::same_key(rows[i].0, r.0) {
                assert(out[i] == r);
            } else {
                assert(out[i] == rows[i]);
            }
        } else {
            if i < rows.len() {
                assert(out[i] == rows[i]);
            } else {
                assert(out[i] == r);
            }
        }
    }
}

/// Updating one row's data fields keeps every other row's resolution and
/// makes the updated one resolve to the recorded pair.
proof fn lemma_set_row_data_resolve(
    rows: Seq<RowView>,
    id: u64,
    dh: Option<Seq<u8>>,
    dr: Option<ChunkRef>,
    hi: HiView,
    bs: BlobStoreView,
)
    requires
        rows_resolve(rows, hi, bs),
        match dh {
            Some(h) => hi.contains_key(h) && hi[h].pref == dr,
            None => dr is None,
        },
    ensures
        rows_resolve(set_row_data(rows, id, dh, dr), hi, bs),
{
    let out = set_row_data(rows, id, dh, dr);
    assert forall|i: int| 0 <= i < out.len() implies {
        let row = #[trigger] out[i];
        match row.0.data_hash {
            Some(h) => hi.contains_key(h) && row.1 == hi[h].pref,
            None => row.1 is None,
        }
    } by {
        assert(rows[i] == rows[i]);
        if rows[i].0.id == Some(id) {
            assert(out[i] == (EntryView { data_hash: dh, ..rows[i].0 }, dr));
        } else {
            assert(out[i] == rows[i]);
        }
    }
}

} // verus!
