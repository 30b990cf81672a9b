//! An in-memory hash index: one row per content hash, driven through the
//! reserve / update / commit protocol.
//!
//! A row passes through the states reserved (no chunk ref yet) and
//! committed; reservation is unique per hash, which is the only
//! synchronization preventing duplicate chunk writes.

use crate::codec::ChunkRef;
use crate::entry::{bytes_eq, clone_opt_bytes, opt_bytes_view};
use vstd::prelude::*;

verus! {

/// One hash-index row as exchanged with callers.
pub struct HashEntry {
    pub hash: Vec<u8>,
    pub level: u64,
    pub payload: Option<Vec<u8>>,
    pub persistent_ref: Option<ChunkRef>,
}

/// Mathematical image of one stored row.
pub ghost struct HashRecView {
    pub level: u64,
    pub payload: Option<Seq<u8>>,
    pub pref: Option<ChunkRef>,
    pub committed: bool,
}

struct HashRec {
    level: u64,
    payload: Option<Vec<u8>>,
    pref: Option<ChunkRef>,
    committed: bool,
}

spec fn rec_view(r: HashRec) -> HashRecView {
    HashRecView {
        level: r.level,
        payload: opt_bytes_view(r.payload),
        pref: r.pref,
        committed: r.committed,
    }
}

pub struct HashIndex {
    entries: Vec<(Vec<u8>, HashRec)>,
}

spec fn eview(entries: Seq<(Vec<u8>, HashRec)>) -> Seq<(Seq<u8>, HashRecView)> {
    entries.map_values(|p: (Vec<u8>, HashRec)| (p.0@, rec_view(p.1)))
}

pub open spec fn keys_unique(s: Seq<(Seq<u8>, HashRecView)>) -> bool {
    forall|i: int, j: int| 0 <= i < j < s.len() ==> (#[trigger] s[i]).0 != (#[trigger] s[j]).0
}

/// The association list as a map, later rows shadowing earlier ones (with
/// unique keys nothing shadows).
pub open spec fn map_of(s: Seq<(Seq<u8>, HashRecView)>) -> Map<Seq<u8>, HashRecView>
    decreases s.len(),
{
    if s.len() == 0 {
        Map::empty()
    } else {
        map_of(s.drop_last()).insert(s.last().0, s.last().1)
    }
}

pub proof fn lemma_map_of_contains(s: Seq<(Seq<u8>, HashRecView)>, h: Seq<u8>)
    ensures
        map_of(s).contains_key(h) <==> exists|i: int| 0 <= i < s.len() && (#[trigger] s[i]).0 == h,
    decreases s.len(),
{
    if s.len() > 0 {
        lemma_map_of_contains(s.drop_last(), h);
        if s.last().0 == h {
            assert(s[s.len() - 1].0 == h);
        } else if map_of(s).contains_key(h) {
            let i = choose|i: int| 0 <= i < s.drop_last().len() && (#[trigger] s.drop_last()[i]).0
                == h;
            assert(s[i].0 == h);
        } else {
            assert(forall|i: int|
                0 <= i < s.len() - 1 ==> (#[trigger] s[i]).0 == s.drop_last()[i].0);
        }
    }
}

pub proof fn lemma_map_of_get(s: Seq<(Seq<u8>, HashRecView)>, i: int)
    requires
        keys_unique(s),
        0 <= i < s.len(),
    ensures
        map_of(s).contains_key(s[i].0),
        map_of(s)[s[i].0] == s[i].1,
    decreases s.len(),
{
    if i == s.len() - 1 {
        assert(s.last() == s[i]);
    } else {
        assert(keys_unique(s.drop_last()));
        assert(s.drop_last()[i] == s[i]);
        lemma_map_of_get(s.drop_last(), i);
        assert(s[i].0 != s.last().0);
    }
}

pub proof fn lemma_map_of_push(s: Seq<(Seq<u8>, HashRecView)>, p: (Seq<u8>, HashRecView))
    ensures
        map_of(s.push(p)) == map_of(s).insert(p.0, p.1),
{
    assert(s.push(p).drop_last() =~= s);
    assert(s.push(p).last() == p);
}

pub proof fn lemma_map_of_update(s: Seq<(Seq<u8>, HashRecView)>, i: int, p: (
    Seq<u8>,
    HashRecView,
))
    requires
        keys_unique(s),
        0 <= i < s.len(),
        s[i].0 == p.0,
    ensures
        map_of(s.update(i, p)) == map_of(s).insert(p.0, p.1),
    decreases s.len(),
{
    let t = s.update(i, p);
    if i == s.len() - 1 {
        assert(t.drop_last() =~= s.drop_last());
        assert(t.last() == p);
        assert(map_of(t) == map_of(s.drop_last()).insert(p.0, p.1));
        assert(map_of(s.drop_last()).insert(s.last().0, s.last().1).insert(p.0, p.1)
            =~= map_of(s.drop_last()).insert(p.0, p.1));
    } else {
        assert(keys_unique(s.drop_last()));
        assert(s.drop_last()[i] == s[i]);
        lemma_map_of_update(s.drop_last(), i, p);
        assert(t.drop_last() =~= s.drop_last().update(i, p));
        assert(t.last() == s.last());
        assert(map_of(t) == map_of(s.drop_last()).insert(p.0, p.1).insert(
            s.last().0,
            s.last().1,
        ));
        assert(s[i].0 != s.last().0);
        assert(map_of(s.drop_last()).insert(p.0, p.1).insert(s.last().0, s.last().1)
            =~= map_of(s.drop_last()).insert(s.last().0, s.last().1).insert(p.0, p.1));
    }
}

/// The reply to `fetch_persistent_ref`.  `Retry` signals a hash that is
/// reserved but not yet recorded with a ref: ask again later.
pub enum FetchRefReply {
    PersistentRef(ChunkRef),
    HashNotKnown,
    Retry,
}

/// The reply to `fetch_payload`.
pub enum PayloadReply {
    Payload(Option<Vec<u8>>),
    HashNotKnown,
}

/// The reply to `reserve`.  `HashKnown` means another insertion path owns
/// (or already finished) this hash; `ReserveOk` makes the caller the sole
/// owner of the commit.
pub enum ReserveReply {
    HashKnown,
    ReserveOk,
}

impl View for HashIndex {
    type V = Map<Seq<u8>, HashRecView>;

    closed spec fn view(&self) -> Map<Seq<u8>, HashRecView> {
        map_of(eview(self.entries@))
    }
}

impl HashIndex {
    /// Rows are stored with pairwise distinct hashes.
    pub closed spec fn wf(&self) -> bool {
        keys_unique(eview(self.entries@))
    }

    pub fn new() -> (s: HashIndex)
        ensures
            s.wf(),
            s@ == Map::<Seq<u8>, HashRecView>::empty(),
    {
        let s = HashIndex { entries: Vec::new() };
        proof {
            assert(eview(s.entries@) =~= Seq::<(Seq<u8>, HashRecView)>::empty());
        }
        s
    }

    fn find_idx(&self, hash: &Vec<u8>) -> (r: Option<usize>)
        requires
            self.wf(),
        ensures
            match r {
                Some(i) => {
                    &&& (i as int) < self.entries@.len()
                    &&& self.entries@[i as int].0@ == hash@
                    &&& self@.contains_key(hash@)
                    &&& self@[hash@] == rec_view(self.entries@[i as int].1)
                },
                None => !self@.contains_key(hash@),
            },
    {
        let mut i: usize = 0;
        while i < self.entries.len()
            invariant
                self.wf(),
                i <= self.entries@.len(),
                forall|j: int| 0 <= j < i ==> (#[trigger] self.entries@[j]).0@ != hash@,
            decreases self.entries@.len() - i,
        {
            if bytes_eq(&self.entries[i].0, hash) {
                proof {
                    assert(eview(self.entries@)[i as int].0 == hash@);
                    lemma_map_of_get(eview(self.entries@), i as int);
                }
                return Some(i);
            }
            i += 1;
        }
        proof {
            lemma_map_of_contains(eview(self.entries@), hash@);
            assert(forall|j: int|
                0 <= j < self.entries@.len() ==> (#[trigger] eview(self.entries@)[j]).0
                    != hash@);
        }
        None
    }

    /// `HashExists`: is this content hash on record (reserved or
    /// committed)?
    pub fn hash_exists(&self, hash: &Vec<u8>) -> (b: bool)
        requires
            self.wf(),
        ensures
            b == self@.contains_key(hash@),
    {
        self.find_idx(hash).is_some()
    }

    /// `FetchPersistentRef`: resolve a hash to its chunk ref; `Retry`
    /// while the hash is reserved but not yet recorded with a ref.
    pub fn fetch_persistent_ref(&self, hash: &Vec<u8>) -> (r: FetchRefReply)
        requires
            self.wf(),
        ensures
            match r {
                FetchRefReply::PersistentRef(cr) => self@.contains_key(hash@) && self@[hash@].pref
                    == Some(cr),
                FetchRefReply::HashNotKnown => !self@.contains_key(hash@),
                FetchRefReply::Retry => self@.contains_key(hash@) && self@[hash@].pref is None,
            },
    {
        match self.find_idx(hash) {
            None => FetchRefReply::HashNotKnown,
            Some(i) => {
                match self.entries[i].1.pref {
                    Some(cr) => FetchRefReply::PersistentRef(cr),
                    None => FetchRefReply::Retry,
                }
            },
        }
    }

    /// `FetchPayload`: the opaque payload bytes of an interior node.
    pub fn fetch_payload(&self, hash: &Vec<u8>) -> (r: PayloadReply)
        requires
            self.wf(),
        ensures
            match r {
                PayloadReply::Payload(p) => self@.contains_key(hash@) && opt_bytes_view(p)
                    == self@[hash@].payload,
                PayloadReply::HashNotKnown => !self@.contains_key(hash@),
            },
    {
        match self.find_idx(hash) {
            None => PayloadReply::HashNotKnown,
            Some(i) => PayloadReply::Payload(clone_opt_bytes(&self.entries[i].1.payload)),
        }
    }

    /// `Reserve`: atomically decide per hash who owns the commit.
    pub fn reserve(&mut self, entry: HashEntry) -> (r: ReserveReply)
        requires
            old(self).wf(),
            entry.persistent_ref is None,
        ensures
            final(self).wf(),
            old(self)@.contains_key(entry.hash@) ==> r == ReserveReply::HashKnown && final(self)@
                == old(self)@,
            !old(self)@.contains_key(entry.hash@) ==> r == ReserveReply::ReserveOk && final(self)@
                == old(self)@.insert(
                entry.hash@,
                HashRecView {
                    level: entry.level,
                    payload: opt_bytes_view(entry.payload),
                    pref: None,
                    committed: false,
                },
            ),
    {
        match self.find_idx(&entry.hash) {
            Some(_) => ReserveReply::HashKnown,
            None => {
                let ghost prev = eview(self.entries@);
                let rec = HashRec {
                    level: entry.level,
                    payload: entry.payload,
                    pref: None,
                    committed: false,
                };
                proof {
                    lemma_map_of_contains(prev, entry.hash@);
                }
                self.entries.push((entry.hash, rec));
                proof {
                    assert(eview(self.entries@) =~= prev.push(
                        (
                            self.entries@.last().0@,
                            rec_view(self.entries@.last().1),
                        ),
                    ));
                    lemma_map_of_push(
                        prev,
                        (self.entries@.last().0@, rec_view(self.entries@.last().1)),
                    );
                }
                ReserveReply::ReserveOk
            },
        }
    }

    /// `UpdateReserved`: record the chunk ref of a reserved hash without
    /// waiting for durability.
    pub fn update_reserved(&mut self, entry: HashEntry)
        requires
            old(self).wf(),
            old(self)@.contains_key(entry.hash@),
        ensures
            final(self).wf(),
            final(self)@ == old(self)@.insert(
                entry.hash@,
                HashRecView {
                    level: entry.level,
                    payload: opt_bytes_view(entry.payload),
                    pref: entry.persistent_ref,
                    committed: old(self)@[entry.hash@].committed,
                },
            ),
    {
        let idx_opt = self.find_idx(&entry.hash);
        let i = idx_opt.unwrap();
        let ghost prev = eview(self.entries@);
        let old_pair = self.entries.remove(i);
        let rec = HashRec {
            level: entry.level,
            payload: entry.payload,
            pref: entry.persistent_ref,
            committed: old_pair.1.committed,
        };
        self.entries.insert(i, (entry.hash, rec));
        proof {
            let p = (self.entries@[i as int].0@, rec_view(self.entries@[i as int].1));
            assert(eview(self.entries@) =~= prev.update(i as int, p));
            lemma_map_of_update(prev, i as int, p);
        }
    }

    /// `Commit`: mark a hash durably written.  The ref was already
    /// recorded by `update_reserved`.
    pub fn commit(&mut self, hash: &Vec<u8>, r: ChunkRef)
        requires
            old(self).wf(),
            old(self)@.contains_key(hash@),
            old(self)@[hash@].pref == Some(r),
        ensures
            final(self).wf(),
            final(self)@ == old(self)@.insert(
                hash@,
                HashRecView {
                    level: old(self)@[hash@].level,
                    payload: old(self)@[hash@].payload,
                    pref: Some(r),
                    committed: true,
                },
            ),
    {
        let idx_opt = self.find_idx(hash);
        let i = idx_opt.unwrap();
        let ghost prev = eview(self.entries@);
        let old_pair = self.entries.remove(i);
        let rec = HashRec {
            level: old_pair.1.level,
            payload: old_pair.1.payload,
            pref: Some(r),
            committed: true,
        };
        self.entries.insert(i, (old_pair.0, rec));
        proof {
            let p = (self.entries@[i as int].0@, rec_view(self.entries@[i as int].1));
            assert(eview(self.entries@) =~= prev.update(i as int, p));
            lemma_map_of_update(prev, i as int, p);
        }
    }

    /// `Flush`: the in-memory index has nothing left to persist.
    pub fn flush(&mut self)
        ensures
            final(self).wf() == old(self).wf(),
            final(self)@ == old(self)@,
    {
    }
}

} // verus!
