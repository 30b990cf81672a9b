//! The `Entry` record: one key (a file or a directory) in the namespace.

use vstd::prelude::*;

verus! {

/// Spec-level image of an optional byte string.
pub open spec fn opt_bytes_view(o: Option<Vec<u8>>) -> Option<Seq<u8>> {
    match o {
        Some(v) => Some(v@),
        None => None,
    }
}

/// One key in the namespace.
///
/// `(parent_id, name)` is the logical identity used for lookup; `id` is the
/// surrogate identity assigned by the key index and used for child linkage.
/// The timestamps and ownership metadata are opaque to the key store and
/// compared bitwise for change detection.  `data_hash` is the root hash of
/// the entry's hash tree, absent when the entry carries no data.
#[derive(Clone, Debug, PartialEq)]
pub struct Entry {
    pub id: Option<u64>,
    pub parent_id: Option<u64>,
    pub name: Vec<u8>,
    pub created: Option<u64>,
    pub modified: Option<u64>,
    pub accessed: Option<u64>,
    pub permissions: Option<u64>,
    pub user_id: Option<u64>,
    pub group_id: Option<u64>,
    pub data_hash: Option<Vec<u8>>,
    pub data_length: Option<u64>,
}

/// Mathematical image of an `Entry`.
pub ghost struct EntryView {
    pub id: Option<u64>,
    pub parent_id: Option<u64>,
    pub name: Seq<u8>,
    pub created: Option<u64>,
    pub modified: Option<u64>,
    pub accessed: Option<u64>,
    pub permissions: Option<u64>,
    pub user_id: Option<u64>,
    pub group_id: Option<u64>,
    pub data_hash: Option<Seq<u8>>,
    pub data_length: Option<u64>,
}

impl View for Entry {
    type V = EntryView;

    open spec fn view(&self) -> EntryView {
        EntryView {
            id: self.id,
            parent_id: self.parent_id,
            name: self.name@,
            created: self.created,
            modified: self.modified,
            accessed: self.accessed,
            permissions: self.permissions,
            user_id: self.user_id,
            group_id: self.group_id,
            data_hash: opt_bytes_view(self.data_hash),
            data_length: self.data_length,
        }
    }
}

/// Two entries name the same key: same directory, same name.
pub open spec fn same_key(a: EntryView, b: EntryView) -> bool {
    a.parent_id == b.parent_id && a.name == b.name
}

/// The exact-match key used by the key index lookup: placement plus all
/// change-detection metadata.  The data fields take no part in it.
pub open spec fn same_meta(a: EntryView, b: EntryView) -> bool {
    &&& same_key(a, b)
    &&& a.created == b.created
    &&& a.modified == b.modified
    &&& a.accessed == b.accessed
    &&& a.permissions == b.permissions
    &&& a.user_id == b.user_id
    &&& a.group_id == b.group_id
}

/// Byte-for-byte copy of a byte vector, with its view pinned down.
pub fn clone_bytes(v: &Vec<u8>) -> (r: Vec<u8>)
    ensures
        r@ == v@,
{
    let mut r: Vec<u8> = Vec::new();
    let mut i: usize = 0;
    while i < v.len()
        invariant
            i <= v.len(),
            r@ == v@.take(i as int),
        decreases v.len() - i,
    {
        r.push(v[i]);
        proof {
            assert(v@.take(i + 1 as int) =~= v@.take(i as int).push(v@[i as int]));
        }
        i += 1;
    }
    proof {
        assert(r@ =~= v@);
    }
    r
}

/// Copy of an optional byte vector, with its view pinned down.
pub fn clone_opt_bytes(o: &Option<Vec<u8>>) -> (r: Option<Vec<u8>>)
    ensures
        opt_bytes_view(r) == opt_bytes_view(*o),
{
    match o {
        Some(v) => Some(clone_bytes(v)),
        None => None,
    }
}

/// Equality test on optional integers, reflected into specifications.
pub fn opt_u64_eq(a: &Option<u64>, b: &Option<u64>) -> (r: bool)
    ensures
        r == (*a == *b),
{
    match (a, b) {
        (Some(x), Some(y)) => *x == *y,
        (None, None) => true,
        _ => false,
    }
}

/// Equality test on byte vectors, reflected into specifications.
pub fn bytes_eq(a: &Vec<u8>, b: &Vec<u8>) -> (r: bool)
    ensures
        r == (a@ == b@),
{
    if a.len() != b.len() {
        return false;
    }
    let mut i: usize = 0;
    while i < a.len()
        invariant
            a@.len() == b@.len(),
            i <= a.len(),
            forall|j: int| 0 <= j < i ==> a@[j] == b@[j],
        decreases a.len() - i,
    {
        if a[i] != b[i] {
            return false;
        }
        i += 1;
    }
    proof {
        assert(a@ =~= b@);
    }
    true
}

impl Entry {
    /// Field-for-field copy with its view pinned down.
    pub fn dup(&self) -> (r: Entry)
        ensures
            r@ == self@,
    {
        Entry {
            id: self.id,
            parent_id: self.parent_id,
            name: clone_bytes(&self.name),
            created: self.created,
            modified: self.modified,
            accessed: self.accessed,
            permissions: self.permissions,
            user_id: self.user_id,
            group_id: self.group_id,
            data_hash: clone_opt_bytes(&self.data_hash),
            data_length: self.data_length,
        }
    }

    /// Does this entry carry the same exact-match key as `other`?
    pub fn matches_meta(&self, other: &Entry) -> (r: bool)
        ensures
            r == same_meta(self@, other@),
    {
        opt_u64_eq(&self.parent_id, &other.parent_id) && bytes_eq(&self.name, &other.name)
            && opt_u64_eq(&self.created, &other.created)
            && opt_u64_eq(&self.modified, &other.modified)
            && opt_u64_eq(&self.accessed, &other.accessed)
            && opt_u64_eq(&self.permissions, &other.permissions)
            && opt_u64_eq(&self.user_id, &other.user_id)
            && opt_u64_eq(&self.group_id, &other.group_id)
    }
}

} // verus!
