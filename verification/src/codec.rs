//! Content addresses and the wire format of interior hash-tree nodes.
//!
//! A node's content address is the little-endian encoding of its tree level
//! followed by the node's block bytes; it is injective, so equal addresses
//! mean equal level and equal block.  An interior node's block serializes
//! the `(hash, chunk ref)` pairs of its children, each hash preceded by its
//! length, each chunk ref as three fixed-width integers.

use vstd::bytes::{
    lemma_auto_spec_u64_to_from_le_bytes, spec_u64_from_le_bytes, spec_u64_to_le_bytes,
    u64_from_le_bytes, u64_to_le_bytes,
};
use vstd::prelude::*;

verus! {

/// An opaque locator for a stored chunk, assigned by the blob store.
#[derive(Clone, Copy, Debug, PartialEq, Eq, Structural)]
pub struct ChunkRef {
    pub blob_id: u64,
    pub offset: u64,
    pub length: u64,
}

/// A child descriptor inside the hash-tree builder: the child's content
/// address and the chunk ref under which its block was stored.
pub struct Link {
    pub hash: Vec<u8>,
    pub pref: ChunkRef,
}

/// Mathematical image of a `Link`.
pub ghost struct LinkView {
    pub hash: Seq<u8>,
    pub pref: ChunkRef,
}

impl View for Link {
    type V = LinkView;

    open spec fn view(&self) -> LinkView {
        LinkView { hash: self.hash@, pref: self.pref }
    }
}

pub open spec fn links_view(s: Seq<Link>) -> Seq<LinkView> {
    s.map_values(|l: Link| l@)
}

/// A link whose hash length fits the length prefix of the wire format.
pub open spec fn link_bounded(l: LinkView) -> bool {
    l.hash.len() <= u64::MAX
}

/// The content address of a node: its level, then its block bytes.
pub open spec fn hash_of(level: u64, block: Seq<u8>) -> Seq<u8> {
    spec_u64_to_le_bytes(level) + block
}

pub proof fn lemma_hash_of_len(level: u64, block: Seq<u8>)
    ensures
        hash_of(level, block).len() == 8 + block.len(),
{
    lemma_auto_spec_u64_to_from_le_bytes();
}

/// Content addresses are injective: the level and the block can both be
/// recovered from the address.
pub proof fn lemma_hash_of_injective(l1: u64, b1: Seq<u8>, l2: u64, b2: Seq<u8>)
    requires
        hash_of(l1, b1) == hash_of(l2, b2),
    ensures
        l1 == l2,
        b1 == b2,
{
    lemma_auto_spec_u64_to_from_le_bytes();
    let h = hash_of(l1, b1);
    assert(spec_u64_to_le_bytes(l1) =~= h.subrange(0, 8));
    assert(spec_u64_to_le_bytes(l2) =~= h.subrange(0, 8));
    assert(spec_u64_from_le_bytes(spec_u64_to_le_bytes(l1)) == l1);
    assert(spec_u64_from_le_bytes(spec_u64_to_le_bytes(l2)) == l2);
    assert(b1 =~= h.subrange(8, h.len() as int));
    assert(b2 =~= h.subrange(8, h.len() as int));
}

/// Computes the content address of a block at the given level.
pub fn compute_hash(level: u64, block: &Vec<u8>) -> (h: Vec<u8>)
    ensures
        h@ == hash_of(level, block@),
{
    let mut h = u64_to_le_bytes(level);
    let mut rest = crate::entry::clone_bytes(block);
    h.append(&mut rest);
    h
}

/// Wire format of one child descriptor.
pub open spec fn ser_link(l: LinkView) -> Seq<u8> {
    spec_u64_to_le_bytes(l.hash.len() as u64) + l.hash + spec_u64_to_le_bytes(l.pref.blob_id)
        + spec_u64_to_le_bytes(l.pref.offset) + spec_u64_to_le_bytes(l.pref.length)
}

pub proof fn lemma_ser_link_len(l: LinkView)
    ensures
        ser_link(l).len() == 32 + l.hash.len(),
{
    lemma_auto_spec_u64_to_from_le_bytes();
}

/// Wire format of a child list: the descriptors in order.
pub open spec fn ser_links(ls: Seq<LinkView>) -> Seq<u8>
    decreases ls.len(),
{
    if ls.len() == 0 {
        Seq::empty()
    } else {
        ser_link(ls[0]) + ser_links(ls.subrange(1, ls.len() as int))
    }
}

pub proof fn lemma_ser_links_snoc(s: Seq<LinkView>, l: LinkView)
    ensures
        ser_links(s.push(l)) == ser_links(s) + ser_link(l),
    decreases s.len(),
{
    if s.len() == 0 {
        let ls = s.push(l);
        assert(ls[0] == l);
        assert(ls.subrange(1, ls.len() as int) =~= Seq::<LinkView>::empty());
        assert(ser_links(ls.subrange(1, ls.len() as int)) == Seq::<u8>::empty());
        assert(ser_links(ls) == ser_link(l) + Seq::<u8>::empty());
        assert(ser_links(s) == Seq::<u8>::empty());
        assert(ser_link(l) + Seq::<u8>::empty() =~= Seq::<u8>::empty() + ser_link(l));
    } else {
        let tail = s.subrange(1, s.len() as int);
        let ls = s.push(l);
        assert(ls.subrange(1, ls.len() as int) =~= tail.push(l));
        lemma_ser_links_snoc(tail, l);
        assert(ls[0] == s[0]);
        assert(ser_links(ls) == ser_link(s[0]) + ser_links(ls.subrange(1, ls.len() as int)));
        assert(ser_links(ls) == ser_link(s[0]) + (ser_links(tail) + ser_link(l)));
        assert(ser_links(s) == ser_link(s[0]) + ser_links(tail));
        assert(ser_link(s[0]) + (ser_links(tail) + ser_link(l)) =~= (ser_link(s[0])
            + ser_links(tail)) + ser_link(l));
    }
}

/// Parses a child list back out of its wire format.  `None` on any
/// malformed input.
pub open spec fn parse_links(b: Seq<u8>) -> Option<Seq<LinkView>>
    decreases b.len(),
{
    if b.len() == 0 {
        Some(Seq::empty())
    } else if b.len() < 8 {
        None
    } else {
        let hlen = spec_u64_from_le_bytes(b.subrange(0, 8)) as int;
        if b.len() < 32 + hlen {
            None
        } else {
            let hash = b.subrange(8, 8 + hlen);
            let blob_id = spec_u64_from_le_bytes(b.subrange(8 + hlen, 16 + hlen));
            let offset = spec_u64_from_le_bytes(b.subrange(16 + hlen, 24 + hlen));
            let length = spec_u64_from_le_bytes(b.subrange(24 + hlen, 32 + hlen));
            let rest = parse_links(b.subrange(32 + hlen, b.len() as int));
            match rest {
                None => None,
                Some(ls) => Some(
                    seq![LinkView { hash, pref: ChunkRef { blob_id, offset, length } }] + ls,
                ),
            }
        }
    }
}

/// Round trip: parsing recovers exactly the serialized child list.
pub proof fn lemma_parse_ser_links(ls: Seq<LinkView>)
    requires
        forall|i: int| 0 <= i < ls.len() ==> link_bounded(#[trigger] ls[i]),
    ensures
        parse_links(ser_links(ls)) == Some(ls),
    decreases ls.len(),
{
    lemma_auto_spec_u64_to_from_le_bytes();
    if ls.len() == 0 {
        assert(parse_links(ser_links(ls)) == Some(Seq::<LinkView>::empty()));
        assert(ls =~= Seq::<LinkView>::empty());
    } else {
        let l0 = ls[0];
        let rest = ls.subrange(1, ls.len() as int);
        let s0 = ser_link(l0);
        let t = ser_links(rest);
        let b = ser_links(ls);
        assert(b == s0 + t);
        lemma_ser_link_len(l0);
        let hlen = l0.hash.len() as int;
        assert(b.len() == 32 + hlen + t.len());
        assert(b.subrange(0, 8) =~= spec_u64_to_le_bytes(l0.hash.len() as u64));
        assert(spec_u64_from_le_bytes(b.subrange(0, 8)) as int == hlen);
        assert(b.subrange(8, 8 + hlen) =~= l0.hash);
        assert(b.subrange(8 + hlen, 16 + hlen) =~= spec_u64_to_le_bytes(l0.pref.blob_id));
        assert(b.subrange(16 + hlen, 24 + hlen) =~= spec_u64_to_le_bytes(l0.pref.offset));
        assert(b.subrange(24 + hlen, 32 + hlen) =~= spec_u64_to_le_bytes(l0.pref.length));
        assert(b.subrange(32 + hlen, b.len() as int) =~= t);
        assert(forall|i: int| 0 <= i < rest.len() ==> link_bounded(#[trigger] rest[i]));
        lemma_parse_ser_links(rest);
        let parsed0 = LinkView {
            hash: b.subrange(8, 8 + hlen),
            pref: ChunkRef {
                blob_id: spec_u64_from_le_bytes(b.subrange(8 + hlen, 16 + hlen)),
                offset: spec_u64_from_le_bytes(b.subrange(16 + hlen, 24 + hlen)),
                length: spec_u64_from_le_bytes(b.subrange(24 + hlen, 32 + hlen)),
            },
        };
        assert(parsed0 == l0);
        assert(seq![parsed0] + rest =~= ls);
    }
}

/// Every link held in an executable vector has a hash short enough for
/// the wire format's length prefix.
pub proof fn lemma_links_bounded(links: &Vec<Link>)
    ensures
        forall|i: int| 0 <= i < links@.len() ==> link_bounded(#[trigger] links_view(links@)[i]),
{
    assert forall|i: int| 0 <= i < links@.len() implies link_bounded(
        #[trigger] links_view(links@)[i],
    ) by {
        assert(links@[i].hash.len() == links@[i].hash@.len());
        assert(links@[i].hash.len() <= usize::MAX);
        assert(usize::MAX <= u64::MAX);
    }
}

/// Copies `n` bytes of `b` starting at `start`.
pub fn copy_range(b: &Vec<u8>, start: usize, n: usize) -> (r: Vec<u8>)
    requires
        start + n <= b.len(),
    ensures
        r@ == b@.subrange(start as int, start as int + n as int),
{
    let mut r: Vec<u8> = Vec::new();
    let mut j: usize = 0;
    while j < n
        invariant
            start + n <= b.len(),
            j <= n,
            r@ == b@.subrange(start as int, start as int + j as int),
        decreases n - j,
    {
        r.push(b[start + j]);
        proof {
            assert(b@.subrange(start as int, start as int + j + 1 as int) =~= b@.subrange(
                start as int,
                start as int + j as int,
            ).push(b@[start as int + j as int]));
        }
        j += 1;
    }
    r
}

/// Reads one little-endian integer out of `b` at `pos`.
pub fn read_u64_at(b: &Vec<u8>, pos: usize) -> (x: u64)
    requires
        pos + 8 <= b.len(),
    ensures
        x == spec_u64_from_le_bytes(b@.subrange(pos as int, pos as int + 8)),
{
    let tmp = copy_range(b, pos, 8);
    u64_from_le_bytes(tmp.as_slice())
}

/// Serializes a child list into its wire format.
pub fn serialize_links(links: &Vec<Link>) -> (out: Vec<u8>)
    ensures
        out@ == ser_links(links_view(links@)),
        forall|i: int| 0 <= i < links@.len() ==> link_bounded(#[trigger] links_view(links@)[i]),
{
    proof {
        lemma_links_bounded(links);
    }
    let mut out: Vec<u8> = Vec::new();
    let mut i: usize = 0;
    while i < links.len()
        invariant
            i <= links.len(),
            out@ == ser_links(links_view(links@.take(i as int))),
        decreases links.len() - i,
    {
        let l = &links[i];
        let mut part = u64_to_le_bytes(l.hash.len() as u64);
        out.append(&mut part);
        let mut hcopy = crate::entry::clone_bytes(&l.hash);
        out.append(&mut hcopy);
        let mut p1 = u64_to_le_bytes(l.pref.blob_id);
        out.append(&mut p1);
        let mut p2 = u64_to_le_bytes(l.pref.offset);
        out.append(&mut p2);
        let mut p3 = u64_to_le_bytes(l.pref.length);
        out.append(&mut p3);
        proof {
            let prev = links_view(links@.take(i as int));
            let cur = links_view(links@.take(i + 1 as int));
            assert(cur =~= prev.push(links@[i as int]@));
            lemma_ser_links_snoc(prev, links@[i as int]@);
            assert(out@ =~= ser_links(prev) + ser_link(links@[i as int]@));
        }
        i += 1;
    }
    proof {
        assert(links@.take(links@.len() as int) =~= links@);
    }
    out
}

/// Parses a child list out of its wire format; `None` on malformed bytes.
pub fn parse_links_exec(b: &Vec<u8>) -> (r: Option<Vec<Link>>)
    ensures
        match r {
            Some(v) => parse_links(b@) == Some(links_view(v@)),
            None => parse_links(b@) is None,
        },
{
    let mut acc: Vec<Link> = Vec::new();
    let mut pos: usize = 0;
    proof {
        assert(b@.subrange(0, b@.len() as int) =~= b@);
        assert(forall|s: Seq<LinkView>| (Seq::<LinkView>::empty() + s) =~= s);
        assert(links_view(acc@) =~= Seq::<LinkView>::empty());
    }
    loop
        invariant
            pos <= b.len(),
            parse_links(b@) == match parse_links(b@.subrange(pos as int, b@.len() as int)) {
                None => None::<Seq<LinkView>>,
                Some(s) => Some(links_view(acc@) + s),
            },
        decreases b@.len() - pos,
    {
        let ghost s = b@.subrange(pos as int, b@.len() as int);
        let avail = b.len() - pos;
        if avail == 0 {
            proof {
                assert(parse_links(s) == Some(Seq::<LinkView>::empty()));
                assert(links_view(acc@) + Seq::<LinkView>::empty() =~= links_view(acc@));
            }
            return Some(acc);
        }
        if avail < 8 {
            return None;
        }
        let hlen64 = read_u64_at(b, pos);
        proof {
            assert(s.subrange(0, 8) =~= b@.subrange(pos as int, pos as int + 8));
        }
        if avail < 32 {
            return None;
        }
        if hlen64 > (avail - 32) as u64 {
            return None;
        }
        let hlen = hlen64 as usize;
        let hash = copy_range(b, pos + 8, hlen);
        let blob_id = read_u64_at(b, pos + 8 + hlen);
        let offset = read_u64_at(b, pos + 16 + hlen);
        let length = read_u64_at(b, pos + 24 + hlen);
        proof {
            let hl = hlen as int;
            let p = pos as int;
            assert(s.subrange(8, 8 + hl) =~= b@.subrange(p + 8, p + 8 + hl));
            assert(s.subrange(8 + hl, 16 + hl) =~= b@.subrange(p + 8 + hl, p + 16 + hl));
            assert(s.subrange(16 + hl, 24 + hl) =~= b@.subrange(p + 16 + hl, p + 24 + hl));
            assert(s.subrange(24 + hl, 32 + hl) =~= b@.subrange(p + 24 + hl, p + 32 + hl));
            assert(s.subrange(32 + hl, s.len() as int) =~= b@.subrange(p + 32 + hl, b@.len() as int));
        }
        let link = Link { hash, pref: ChunkRef { blob_id, offset, length } };
        proof {
            let hl = hlen as int;
            let snext = b@.subrange(pos as int + 32 + hl, b@.len() as int);
            match parse_links(snext) {
                None => {
                    assert(parse_links(s) is None);
                }
                Some(tail) => {
                    assert(parse_links(s) == Some(seq![link@] + tail));
                    assert(links_view(acc@.push(link)) =~= links_view(acc@).push(link@));
                    assert(links_view(acc@) + (seq![link@] + tail) =~= links_view(acc@.push(link))
                        + tail);
                }
            }
        }
        acc.push(link);
        pos = pos + 32 + hlen;
    }
}

} // verus!
