//! An in-memory key index: one row per `(parent_id, name)`, with the
//! surrogate numeric id the rest of the system links against.

use crate::codec::ChunkRef;
use crate::entry::{
    bytes_eq, clone_opt_bytes, opt_bytes_view, opt_u64_eq, same_key, same_meta, Entry, EntryView,
};
use vstd::prelude::*;

verus! {

/// One stored row: the entry plus the chunk ref recorded for its root.
pub type RowView = (EntryView, Option<ChunkRef>);

pub struct KeyIndex {
    rows: Vec<(Entry, Option<ChunkRef>)>,
    next_id: u64,
}

/// Mathematical image of the key index.
pub ghost struct KeyIndexView {
    pub rows: Seq<RowView>,
    pub next_id: u64,
}

impl View for KeyIndex {
    type V = KeyIndexView;

    closed spec fn view(&self) -> KeyIndexView {
        KeyIndexView {
            rows: self.rows@.map_values(|p: (Entry, Option<ChunkRef>)| (p.0@, p.1)),
            next_id: self.next_id,
        }
    }
}

/// Every row carries an id below `next_id`, rows have pairwise distinct
/// keys and pairwise distinct ids.
pub open spec fn ki_wf(ki: KeyIndexView) -> bool {
    &&& 1 <= ki.next_id
    &&& forall|i: int|
        0 <= i < ki.rows.len() ==> {
            &&& (#[trigger] ki.rows[i]).0.id is Some
            &&& 1 <= ki.rows[i].0.id->Some_0 < ki.next_id
        }
    &&& forall|i: int, j: int|
        0 <= i < j < ki.rows.len() ==> !same_key((#[trigger] ki.rows[i]).0, (#[trigger] ki.rows[j]).0)
    &&& forall|i: int, j: int|
        0 <= i < j < ki.rows.len() ==> (#[trigger] ki.rows[i]).0.id != (#[trigger] ki.rows[j]).0.id
}

/// The first row whose exact-match key equals `e`'s, if any.
pub open spec fn lookup_exact_spec(rows: Seq<RowView>, e: EntryView) -> Option<RowView>
    decreases rows.len(),
{
    if rows.len() == 0 {
        None
    } else if same_meta(rows[0].0, e) {
        Some(rows[0])
    } else {
        lookup_exact_spec(rows.subrange(1, rows.len() as int), e)
    }
}

pub proof fn lemma_lookup_spec_properties(rows: Seq<RowView>, e: EntryView)
    ensures
        match lookup_exact_spec(rows, e) {
            Some(row) => exists|i: int|
                0 <= i < rows.len() && #[trigger] rows[i] == row && same_meta(row.0, e),
            None => forall|i: int| 0 <= i < rows.len() ==> !same_meta((#[trigger] rows[i]).0, e),
        },
    decreases rows.len(),
{
    if rows.len() > 0 {
        let tail = rows.subrange(1, rows.len() as int);
        lemma_lookup_spec_properties(tail, e);
        if !same_meta(rows[0].0, e) {
            match lookup_exact_spec(tail, e) {
                Some(row) => {
                    let i = choose|i: int|
                        0 <= i < tail.len() && #[trigger] tail[i] == row && same_meta(row.0, e);
                    assert(rows[i + 1] == row);
                },
                None => {
                    assert(forall|i: int|
                        1 <= i < rows.len() ==> (#[trigger] rows[i]) == tail[i - 1]);
                },
            }
        }
    }
}

/// Is some row stored under `e`'s key?
pub open spec fn has_key(rows: Seq<RowView>, e: EntryView) -> bool {
    exists|i: int| 0 <= i < rows.len() && same_key((#[trigger] rows[i]).0, e)
}

/// Inserting a row: it replaces the row with its key, or is appended.
pub open spec fn upsert_row(rows: Seq<RowView>, r: RowView) -> Seq<RowView> {
    if has_key(rows, r.0) {
        rows.map_values(
            |row: RowView|
                if same_key(row.0, r.0) {
                    r
                } else {
                    row
                },
        )
    } else {
        rows.push(r)
    }
}

/// Recording an entry's root: the row with that id gets the hash and the
/// ref, everything else stands.
pub open spec fn set_row_data(
    rows: Seq<RowView>,
    id: u64,
    dh: Option<Seq<u8>>,
    dr: Option<ChunkRef>,
) -> Seq<RowView> {
    rows.map_values(
        |row: RowView|
            if row.0.id == Some(id) {
                (EntryView { data_hash: dh, ..row.0 }, dr)
            } else {
                row
            },
    )
}

/// The rows of the immediate children of `parent`, in storage order.
pub open spec fn children_of(rows: Seq<RowView>, parent: Option<u64>) -> Seq<RowView>
    decreases rows.len(),
{
    if rows.len() == 0 {
        Seq::empty()
    } else {
        (if rows[0].0.parent_id == parent {
            seq![rows[0]]
        } else {
            Seq::empty()
        }) + children_of(rows.subrange(1, rows.len() as int), parent)
    }
}

pub proof fn lemma_children_of_snoc(rows: Seq<RowView>, r: RowView, parent: Option<u64>)
    ensures
        children_of(rows.push(r), parent) == children_of(rows, parent) + (if r.0.parent_id
            == parent {
            seq![r]
        } else {
            Seq::<RowView>::empty()
        }),
    decreases rows.len(),
{
    let p = rows.push(r);
    let head: Seq<RowView> = if rows.len() > 0 {
        if rows[0].0.parent_id == parent {
            seq![rows[0]]
        } else {
            Seq::empty()
        }
    } else {
        Seq::empty()
    };
    let last: Seq<RowView> = if r.0.parent_id == parent {
        seq![r]
    } else {
        Seq::empty()
    };
    if rows.len() == 0 {
        assert(p[0] == r);
        assert(p.subrange(1, p.len() as int) =~= Seq::<RowView>::empty());
        assert(children_of(p.subrange(1, p.len() as int), parent) == Seq::<RowView>::empty());
        assert(children_of(p, parent) =~= children_of(rows, parent) + last);
    } else {
        let tail = rows.subrange(1, rows.len() as int);
        assert(p.subrange(1, p.len() as int) =~= tail.push(r));
        lemma_children_of_snoc(tail, r, parent);
        assert(p[0] == rows[0]);
        assert(children_of(p, parent) == head + (children_of(tail, parent) + last));
        assert(children_of(rows, parent) == head + children_of(tail, parent));
        assert(head + (children_of(tail, parent) + last) =~= (head + children_of(tail, parent))
            + last);
    }
}

/// Completeness of listing, as a law: every stored row under `parent`
/// appears among its children.
pub proof fn lemma_children_of_complete(rows: Seq<RowView>, parent: Option<u64>, i: int)
    requires
        0 <= i < rows.len(),
        rows[i].0.parent_id == parent,
    ensures
        children_of(rows, parent).contains(rows[i]),
    decreases rows.len(),
{
    let tail = rows.subrange(1, rows.len() as int);
    if i == 0 {
        assert(children_of(rows, parent)[0] == rows[0]);
    } else {
        lemma_children_of_complete(tail, parent, i - 1);
        let cs = children_of(tail, parent);
        let j = choose|j: int| 0 <= j < cs.len() && cs[j] == tail[i - 1];
        let head: Seq<RowView> = if rows[0].0.parent_id == parent {
            seq![rows[0]]
        } else {
            Seq::empty()
        };
        assert(children_of(rows, parent)[head.len() + j] == cs[j]);
    }
}

/// Soundness of listing, as a law: everything listed under `parent` is a
/// stored row whose `parent_id` is exactly `parent`.
pub proof fn lemma_children_of_sound(rows: Seq<RowView>, parent: Option<u64>)
    ensures
        forall|j: int|
            0 <= j < children_of(rows, parent).len() ==> {
                &&& (#[trigger] children_of(rows, parent)[j]).0.parent_id == parent
                &&& rows.contains(children_of(rows, parent)[j])
            },
    decreases rows.len(),
{
    if rows.len() > 0 {
        let tail = rows.subrange(1, rows.len() as int);
        lemma_children_of_sound(tail, parent);
        let head: Seq<RowView> = if rows[0].0.parent_id == parent {
            seq![rows[0]]
        } else {
            Seq::empty()
        };
        let cs = children_of(rows, parent);
        assert forall|j: int| 0 <= j < cs.len() implies {
            &&& (#[trigger] cs[j]).0.parent_id == parent
            &&& rows.contains(cs[j])
        } by {
            if j < head.len() {
                assert(cs[j] == rows[0]);
            } else {
                assert(cs[j] == children_of(tail, parent)[j - head.len()]);
                let jt = j - head.len();
                assert(children_of(tail, parent)[jt].0.parent_id == parent);
                let i = choose|i: int|
                    0 <= i < tail.len() && #[trigger] tail[i] == children_of(tail, parent)[jt];
                assert(rows[i + 1] == tail[i]);
            }
        }
    }
}

impl KeyIndex {
    pub fn new() -> (s: KeyIndex)
        ensures
            ki_wf(s@),
            s@.rows == Seq::<RowView>::empty(),
            s@.next_id == 1,
    {
        let s = KeyIndex { rows: Vec::new(), next_id: 1 };
        proof {
            assert(s@.rows =~= Seq::<RowView>::empty());
        }
        s
    }

    /// `LookupExact`: the stored row matching the entry's placement and
    /// metadata, in full (id and data fields included).
    #[verifier::loop_isolation(false)]
    pub fn lookup_exact(&self, entry: &Entry) -> (r: Option<Entry>)
        ensures
            match r {
                Some(row) => {
                    &&& lookup_exact_spec(self@.rows, entry@) is Some
                    &&& row@ == lookup_exact_spec(self@.rows, entry@)->Some_0.0
                },
                None => lookup_exact_spec(self@.rows, entry@) is None,
            },
    {
        proof {
            assert(self@.rows.subrange(0, self@.rows.len() as int) =~= self@.rows);
        }
        let mut i: usize = 0;
        while i < self.rows.len()
            invariant
                i <= self.rows@.len(),
                lookup_exact_spec(self@.rows, entry@) == lookup_exact_spec(
                    self@.rows.subrange(i as int, self@.rows.len() as int),
                    entry@,
                ),
            decreases self.rows@.len() - i,
        {
            let ghost suffix = self@.rows.subrange(i as int, self@.rows.len() as int);
            if self.rows[i].0.matches_meta(entry) {
                proof {
                    assert(suffix[0] == self@.rows[i as int]);
                }
                return Some(self.rows[i].0.dup());
            }
            proof {
                assert(suffix[0] == self@.rows[i as int]);
                assert(suffix.subrange(1, suffix.len() as int) =~= self@.rows.subrange(
                    i + 1 as int,
                    self@.rows.len() as int,
                ));
            }
            i += 1;
        }
        proof {
            assert(self@.rows.subrange(i as int, self@.rows.len() as int).len() == 0);
        }
        None
    }

    /// `Insert`: stores the entry under a fresh id, replacing any row
    /// with the same `(parent_id, name)` key.
    #[verifier::loop_isolation(false)]
    pub fn insert(&mut self, entry: Entry) -> (r: Entry)
        requires
            ki_wf(old(self)@),
            old(self)@.next_id < u64::MAX,
        ensures
            ki_wf(final(self)@),
            final(self)@.next_id == old(self)@.next_id + 1,
            r@ == (EntryView { id: Some(old(self)@.next_id), ..entry@ }),
            final(self)@.rows == upsert_row(old(self)@.rows, (r@, None::<ChunkRef>)),
    {
        let id = self.next_id;
        self.next_id = id + 1;
        let row = Entry { id: Some(id), ..entry };
        let ret = row.dup();
        let ghost rv = row@;
        let ghost rows0 = self@.rows;
        let mut i: usize = 0;
        while i < self.rows.len()
            invariant
                i <= self.rows@.len(),
                rows0 == self@.rows,
                self@.next_id == old(self)@.next_id + 1,
                id == old(self)@.next_id,
                rv == row@,
                forall|j: int| 0 <= j < i ==> !same_key((#[trigger] rows0[j]).0, rv),
            decreases self.rows@.len() - i,
        {
            if opt_u64_eq(&self.rows[i].0.parent_id, &row.parent_id) && bytes_eq(
                &self.rows[i].0.name,
                &row.name,
            ) {
                // replace the row that holds this key
                let _old_pair = self.rows.remove(i);
                self.rows.insert(i, (row, None));
                proof {
                    assert(same_key(rows0[i as int].0, rv));
                    assert(has_key(rows0, rv));
                    let mapped = rows0.map_values(
                        |rowv: RowView|
                            if same_key(rowv.0, rv) {
                                (rv, None::<ChunkRef>)
                            } else {
                                rowv
                            },
                    );
                    assert forall|j: int| 0 <= j < rows0.len() implies self@.rows[j] == mapped[j] by {
                        if j != i {
                            assert(!same_key(rows0[j].0, rows0[i as int].0));
                        }
                    }
                    assert(self@.rows =~= mapped);
                    assert forall|a: int, b: int|
                        0 <= a < b < self@.rows.len() implies !same_key(
                        (#[trigger] self@.rows[a]).0,
                        (#[trigger] self@.rows[b]).0,
                    ) && self@.rows[a].0.id != self@.rows[b].0.id by {
                        assert(!same_key(rows0[a].0, rows0[b].0));
                        assert(rows0[a].0.id != rows0[b].0.id);
                        if a == i {
                            assert(rows0[b].0.id->Some_0 < id);
                        }
                        if b == i {
                            assert(rows0[a].0.id->Some_0 < id);
                        }
                    }
                }
                return ret;
            }
            i += 1;
        }
        self.rows.push((row, None));
        proof {
            assert(!has_key(rows0, rv));
            assert(self@.rows =~= rows0.push((rv, None::<ChunkRef>)));
            assert forall|a: int, b: int|
                0 <= a < b < self@.rows.len() implies !same_key(
                (#[trigger] self@.rows[a]).0,
                (#[trigger] self@.rows[b]).0,
            ) && self@.rows[a].0.id != self@.rows[b].0.id by {
                if b == rows0.len() {
                    assert(!same_key(rows0[a].0, rv));
                    assert(rows0[a].0.id->Some_0 < id);
                } else {
                    assert(!same_key(rows0[a].0, rows0[b].0));
                    assert(rows0[a].0.id != rows0[b].0.id);
                }
            }
        }
        ret
    }

    /// `ListDir`: the rows of the immediate children of `parent`.
    #[verifier::loop_isolation(false)]
    pub fn list_dir(&self, parent: Option<u64>) -> (r: Vec<(Entry, Option<ChunkRef>)>)
        ensures
            r@.map_values(|p: (Entry, Option<ChunkRef>)| (p.0@, p.1)) == children_of(
                self@.rows,
                parent,
            ),
    {
        let mut r: Vec<(Entry, Option<ChunkRef>)> = Vec::new();
        let mut i: usize = 0;
        while i < self.rows.len()
            invariant
                i <= self.rows@.len(),
                r@.map_values(|p: (Entry, Option<ChunkRef>)| (p.0@, p.1)) == children_of(
                    self@.rows.take(i as int),
                    parent,
                ),
            decreases self.rows@.len() - i,
        {
            let ghost prefix = self@.rows.take(i as int);
            let ghost before = r@.map_values(|p: (Entry, Option<ChunkRef>)| (p.0@, p.1));
            if opt_u64_eq(&self.rows[i].0.parent_id, &parent) {
                r.push((self.rows[i].0.dup(), self.rows[i].1));
            }
            proof {
                assert(self@.rows.take(i + 1 as int) =~= prefix.push(self@.rows[i as int]));
                lemma_children_of_snoc(prefix, self@.rows[i as int], parent);
                let after = r@.map_values(|p: (Entry, Option<ChunkRef>)| (p.0@, p.1));
                if self@.rows[i as int].0.parent_id == parent {
                    assert(after =~= before.push(self@.rows[i as int]));
                    assert(before + seq![self@.rows[i as int]] =~= before.push(
                        self@.rows[i as int],
                    ));
                } else {
                    assert(before + Seq::<RowView>::empty() =~= before);
                }
            }
            i += 1;
        }
        proof {
            assert(self@.rows.take(self@.rows.len() as int) =~= self@.rows);
        }
        r
    }

    /// `UpdateDataHash`: records (or clears) the root hash and its chunk
    /// ref on the row with the entry's id.
    #[verifier::loop_isolation(false)]
    pub fn update_data_hash(
        &mut self,
        entry: &Entry,
        hash: Option<Vec<u8>>,
        pref: Option<ChunkRef>,
    ) -> (ok: bool)
        requires
            ki_wf(old(self)@),
            entry@.id is Some,
        ensures
            ki_wf(final(self)@),
            final(self)@.next_id == old(self)@.next_id,
            ok == exists|i: int|
                0 <= i < old(self)@.rows.len() && (#[trigger] old(self)@.rows[i]).0.id
                    == entry@.id,
            ok ==> final(self)@.rows == set_row_data(
                old(self)@.rows,
                entry@.id->Some_0,
                opt_bytes_view(hash),
                pref,
            ),
            !ok ==> final(self)@.rows == old(self)@.rows,
    {
        let ghost rows0 = self@.rows;
        let ghost idv = entry@.id->Some_0;
        let mut i: usize = 0;
        while i < self.rows.len()
            invariant
                i <= self.rows@.len(),
                rows0 == self@.rows,
                self@.next_id == old(self)@.next_id,
                entry@.id is Some,
                idv == entry@.id->Some_0,
                forall|j: int| 0 <= j < i ==> (#[trigger] rows0[j]).0.id != entry@.id,
            decreases self.rows@.len() - i,
        {
            if opt_u64_eq(&self.rows[i].0.id, &entry.id) {
                let old_pair = self.rows.remove(i);
                let updated = Entry { data_hash: hash, ..old_pair.0 };
                self.rows.insert(i, (updated, pref));
                proof {
                    assert(rows0[i as int].0.id == Some(idv));
                    let mapped = set_row_data(rows0, idv, opt_bytes_view(updated.data_hash), pref);
                    assert forall|j: int| 0 <= j < rows0.len() implies self@.rows[j] == mapped[j] by {
                        if j != i {
                            assert(rows0[j].0.id != rows0[i as int].0.id);
                        }
                    }
                    assert(self@.rows =~= mapped);
                    assert forall|a: int, b: int|
                        0 <= a < b < self@.rows.len() implies !same_key(
                        (#[trigger] self@.rows[a]).0,
                        (#[trigger] self@.rows[b]).0,
                    ) && self@.rows[a].0.id != self@.rows[b].0.id by {
                        assert(!same_key(rows0[a].0, rows0[b].0));
                        assert(rows0[a].0.id != rows0[b].0.id);
                    }
                }
                return true;
            }
            i += 1;
        }
        false
    }

    /// The id the next fresh insert will be assigned.
    pub fn next_id(&self) -> (n: u64)
        ensures
            n == self@.next_id,
    {
        self.next_id
    }

    /// `Flush`: the in-memory index has nothing left to persist.
    pub fn flush(&mut self)
        ensures
            final(self)@ == old(self)@,
    {
    }
}

} // verus!
