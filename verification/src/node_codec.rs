//! Node record codec: a trie node as a fixed-width, versioned binary record.
//!
//! Layout: one version byte, one edge byte, then 256 five-byte slots, one per
//! possible key byte. A slot is a flag byte (0 = no edge, 1 = edge) followed
//! by a four-byte little-endian node index. Decoding is the exact inverse of
//! encoding; a record of the wrong width, wrong version or with an invalid
//! slot flag is corrupt and never yields a partially filled node.
use vstd::prelude::*;
use vstd::bytes::{
    spec_u32_to_le_bytes, spec_u32_from_le_bytes, u32_to_le_bytes, u32_from_le_bytes,
    lemma_auto_spec_u32_to_from_le_bytes,
};
use vstd::slice::slice_subrange;
use crate::TrieError;

verus! {

/// Version byte that every node record starts with.
pub const NODE_RECORD_VERSION: u8 = 1;

/// Width of one encoded edge slot: flag byte plus little-endian index.
pub const SLOT_WIDTH: usize = 5;

/// Width of a whole node record: version, edge byte, 256 slots.
pub const NODE_RECORD_LEN: usize = 2 + 256 * SLOT_WIDTH;

/// A trie node: the byte of the edge that reaches it, and a table of one
/// optional child index per possible key byte.
///
/// Invariant: the edge table always has exactly 256 slots.
#[derive(Debug)]
pub struct TrieNode {
    /// Byte of the incoming edge (0 for the root).
    pub value: u8,
    /// `next[b]` is the index of the node reached by key byte `b`, if any.
    pub next: Vec<Option<u32>>,
}

/// Mathematical image of a [`TrieNode`].
#[verifier::ext_equal]
pub struct NodeV {
    pub value: u8,
    pub next: Seq<Option<u32>>,
}

impl View for TrieNode {
    type V = NodeV;

    open spec fn view(&self) -> NodeV {
        NodeV { value: self.value, next: self.next@ }
    }
}

impl NodeV {
    /// A node's edge table always has one slot per possible byte.
    pub open spec fn wf(self) -> bool {
        self.next.len() == 256
    }
}

/// The node a fresh allocation starts from: an incoming edge byte and no
/// outgoing edges.
pub open spec fn spec_empty_node(value: u8) -> NodeV {
    NodeV { value, next: Seq::new(256, |i: int| None) }
}

impl TrieNode {
    /// The edge table has exactly 256 slots.
    pub open spec fn wf(&self) -> bool {
        self@.wf()
    }

    /// Creates a node with edge byte `value` and no edges.
    pub fn empty(value: u8) -> (r: TrieNode)
        ensures
            r.wf(),
            r@ == spec_empty_node(value),
    {
        let mut next: Vec<Option<u32>> = Vec::new();
        let mut i: usize = 0;
        while i < 256
            invariant
                i <= 256,
                next@.len() == i,
                forall|j: int| 0 <= j < i ==> next@[j] is None,
            decreases 256 - i,
        {
            next.push(None);
            i += 1;
        }
        let r = TrieNode { value, next };
        proof {
            assert(r@.next =~= spec_empty_node(value).next);
        }
        r
    }
}

impl Default for TrieNode {
    /// The shape a namespace's root starts with: zero edge byte, no edges.
    fn default() -> (r: Self)
        ensures
            r.wf(),
            r@ == spec_empty_node(0),
    {
        TrieNode::empty(0)
    }
}

impl Clone for TrieNode {
    /// Clones the node; the copy carries the same edge byte and edge table.
    fn clone(&self) -> (r: Self)
        ensures
            r@ == self@,
    {
        let mut next: Vec<Option<u32>> = Vec::new();
        let mut i: usize = 0;
        while i < self.next.len()
            invariant
                i <= self.next@.len(),
                next@.len() == i,
                forall|j: int| 0 <= j < i ==> next@[j] == self.next@[j],
            decreases self.next@.len() - i,
        {
            next.push(self.next[i]);
            i += 1;
        }
        let r = TrieNode { value: self.value, next };
        proof {
            assert(r@.next =~= self@.next);
        }
        r
    }
}

/// Encoding of one edge slot.
pub open spec fn spec_encode_slot(s: Option<u32>) -> Seq<u8> {
    match s {
        None => seq![0u8, 0u8, 0u8, 0u8, 0u8],
        Some(i) => seq![1u8] + spec_u32_to_le_bytes(i),
    }
}

/// Encoding of a table of edge slots, in slot order.
pub open spec fn spec_encode_slots(s: Seq<Option<u32>>) -> Seq<u8>
    decreases s.len(),
{
    if s.len() == 0 {
        Seq::empty()
    } else {
        spec_encode_slot(s[0]) + spec_encode_slots(s.drop_first())
    }
}

/// Encoding of a whole node record.
pub open spec fn spec_encode_node(n: NodeV) -> Seq<u8> {
    seq![NODE_RECORD_VERSION, n.value] + spec_encode_slots(n.next)
}

/// Whether slot `i` of record `b` carries a valid flag byte.
pub open spec fn spec_slot_ok(b: Seq<u8>, i: int) -> bool {
    b[2 + 5 * i] == 0 || b[2 + 5 * i] == 1
}

/// The edge that slot `i` of record `b` encodes.
pub open spec fn spec_decode_slot(b: Seq<u8>, i: int) -> Option<u32> {
    if b[2 + 5 * i] == 0 {
        None
    } else {
        Some(spec_u32_from_le_bytes(b.subrange(3 + 5 * i, 7 + 5 * i)))
    }
}

/// The node that record `b` encodes, or nothing if `b` is corrupt: wrong
/// width, wrong version, or an invalid slot flag.
pub open spec fn spec_decode_node(b: Seq<u8>) -> Option<NodeV> {
    if b.len() == NODE_RECORD_LEN && b[0] == NODE_RECORD_VERSION && (forall|i: int|
        0 <= i < 256 ==> spec_slot_ok(b, i)) {
        Some(NodeV { value: b[1], next: Seq::new(256, |i: int| spec_decode_slot(b, i)) })
    } else {
        None
    }
}

/// An encoded slot is five bytes wide, so a table encodes to five bytes a slot.
proof fn lemma_encode_slots_len(s: Seq<Option<u32>>)
    ensures
        spec_encode_slots(s).len() == 5 * s.len(),
    decreases s.len(),
{
    lemma_auto_spec_u32_to_from_le_bytes();
    if s.len() > 0 {
        lemma_encode_slots_len(s.drop_first());
    }
}

/// Appending one slot to a table appends its five bytes to the encoding.
proof fn lemma_encode_slots_snoc(s: Seq<Option<u32>>)
    requires
        s.len() > 0,
    ensures
        spec_encode_slots(s) == spec_encode_slots(s.drop_last()) + spec_encode_slot(s.last()),
    decreases s.len(),
{
    if s.len() == 1 {
        assert(s.drop_last() =~= Seq::<Option<u32>>::empty());
        assert(spec_encode_slots(s.drop_first()) =~= Seq::<u8>::empty());
        assert(spec_encode_slots(s) =~= spec_encode_slots(s.drop_last()) + spec_encode_slot(
            s.last(),
        ));
    } else {
        let t = s.drop_first();
        lemma_encode_slots_snoc(t);
        assert(t.drop_last() =~= s.drop_last().drop_first());
        assert(t.last() == s.last());
        assert(s.drop_last()[0] == s[0]);
        assert(spec_encode_slots(s.drop_last()) == spec_encode_slot(s[0]) + spec_encode_slots(
            s.drop_last().drop_first(),
        ));
        assert(spec_encode_slots(s) =~= spec_encode_slots(s.drop_last()) + spec_encode_slot(
            s.last(),
        ));
    }
}

/// Within a table's encoding, slot `i` stands at offset `5 * i`.
proof fn lemma_encode_slots_index(s: Seq<Option<u32>>, i: int)
    requires
        0 <= i < s.len(),
    ensures
        spec_encode_slots(s).subrange(5 * i, 5 * i + 5) == spec_encode_slot(s[i]),
    decreases i,
{
    lemma_encode_slots_len(s);
    lemma_auto_spec_u32_to_from_le_bytes();
    if i == 0 {
        lemma_encode_slots_len(s.drop_first());
        assert(spec_encode_slot(s[0]).len() == 5);
        assert(spec_encode_slots(s).subrange(0, 5) =~= spec_encode_slot(s[0]));
    } else {
        let t = s.drop_first();
        lemma_encode_slots_index(t, i - 1);
        lemma_encode_slots_len(t);
        assert(spec_encode_slot(s[0]).len() == 5);
        assert(t[i - 1] == s[i]);
        assert(spec_encode_slots(s).subrange(5 * i, 5 * i + 5) =~= spec_encode_slots(t).subrange(
            5 * (i - 1),
            5 * (i - 1) + 5,
        ));
    }
}

/// Decoding a well-formed node's encoding gives the node back.
pub proof fn lemma_node_round_trip(n: NodeV)
    requires
        n.wf(),
    ensures
        spec_decode_node(spec_encode_node(n)) == Some(n),
{
    lemma_auto_spec_u32_to_from_le_bytes();
    let b = spec_encode_node(n);
    lemma_encode_slots_len(n.next);
    assert(b.len() == NODE_RECORD_LEN);
    assert(b[0] == NODE_RECORD_VERSION);
    assert(b[1] == n.value);
    assert forall|i: int| 0 <= i < 256 implies spec_slot_ok(b, i) && spec_decode_slot(b, i)
        == n.next[i] by {
        lemma_encode_slots_index(n.next, i);
        let slot = spec_encode_slot(n.next[i]);
        assert(spec_encode_slots(n.next).subrange(5 * i, 5 * i + 5) == slot);
        assert forall|j: int| 0 <= j < 5 implies b[2 + 5 * i + j] == slot[j] by {
            assert(spec_encode_slots(n.next)[5 * i + j] == slot[j]);
        }
        match n.next[i] {
            None => {
                assert(b[2 + 5 * i] == slot[0]);
                assert(slot[0] == 0u8);
            },
            Some(x) => {
                assert(b[2 + 5 * i] == slot[0]);
                assert(slot[0] == 1u8);
                let sub = b.subrange(3 + 5 * i, 7 + 5 * i);
                assert forall|j: int| 0 <= j < 4 implies sub[j] == spec_u32_to_le_bytes(x)[j] by {
                    assert(b[2 + 5 * i + (j + 1)] == slot[j + 1]);
                    assert(sub[j] == b[3 + 5 * i + j]);
                    assert(slot[j + 1] == spec_u32_to_le_bytes(x)[j]);
                }
                assert(sub =~= spec_u32_to_le_bytes(x));
            },
        }
    }
    let d = spec_decode_node(b).unwrap();
    assert(d.next =~= n.next);
    assert(d =~= n);
}

/// Encodes a node as a fixed-width record.
pub fn encode_node(n: &TrieNode) -> (r: Vec<u8>)
    requires
        n.wf(),
    ensures
        r@ == spec_encode_node(n@),
{
    let mut r: Vec<u8> = Vec::new();
    r.push(NODE_RECORD_VERSION);
    r.push(n.value);
    let mut i: usize = 0;
    proof {
        assert(n@.next.take(0) =~= Seq::<Option<u32>>::empty());
        assert(r@ =~= seq![NODE_RECORD_VERSION, n@.value] + spec_encode_slots(n@.next.take(0)));
    }
    while i < 256
        invariant
            n.wf(),
            i <= 256,
            r@ == seq![NODE_RECORD_VERSION, n@.value] + spec_encode_slots(n@.next.take(i as int)),
        decreases 256 - i,
    {
        let ghost prev = r@;
        match n.next[i] {
            None => {
                r.push(0u8);
                r.push(0u8);
                r.push(0u8);
                r.push(0u8);
                r.push(0u8);
                proof {
                    assert(r@ =~= prev + spec_encode_slot(n@.next[i as int]));
                }
            },
            Some(x) => {
                r.push(1u8);
                let mut idx = u32_to_le_bytes(x);
                r.append(&mut idx);
                proof {
                    lemma_auto_spec_u32_to_from_le_bytes();
                    assert(r@ =~= prev + spec_encode_slot(n@.next[i as int]));
                }
            },
        }
        proof {
            let t = n@.next.take(i + 1);
            lemma_encode_slots_snoc(t);
            assert(t.drop_last() =~= n@.next.take(i as int));
            assert(t.last() == n@.next[i as int]);
            assert(r@ =~= seq![NODE_RECORD_VERSION, n@.value] + spec_encode_slots(t));
        }
        i += 1;
    }
    proof {
        assert(n@.next.take(256) =~= n@.next);
    }
    r
}

/// Decodes a fixed-width record back into a node; a short or malformed
/// record is reported as corrupt and yields no node at all.
pub fn decode_node(b: &Vec<u8>) -> (r: Result<TrieNode, TrieError>)
    ensures
        r matches Ok(n) ==> n.wf() && spec_decode_node(b@) == Some(n@),
        r is Err ==> spec_decode_node(b@) is None && r == Err::<TrieNode, TrieError>(
            TrieError::CorruptRecord,
        ),
{
    if b.len() != NODE_RECORD_LEN {
        return Err(TrieError::CorruptRecord);
    }
    if b[0] != NODE_RECORD_VERSION {
        return Err(TrieError::CorruptRecord);
    }
    let value = b[1];
    let mut next: Vec<Option<u32>> = Vec::new();
    let mut i: usize = 0;
    while i < 256
        invariant
            b@.len() == NODE_RECORD_LEN,
            i <= 256,
            next@.len() == i,
            forall|j: int| 0 <= j < i ==> spec_slot_ok(b@, j) && next@[j] == spec_decode_slot(b@, j),
        decreases 256 - i,
    {
        let flag = b[2 + 5 * i];
        if flag == 0 {
            next.push(None);
        } else if flag == 1 {
            let lo = 3 + 5 * i;
            let idx = u32_from_le_bytes(slice_subrange(b.as_slice(), lo, lo + 4));
            proof {
                assert(b@.subrange(lo as int, lo as int + 4) =~= b@.subrange(
                    3 + 5 * (i as int),
                    7 + 5 * (i as int),
                ));
            }
            next.push(Some(idx));
        } else {
            proof {
                assert(!spec_slot_ok(b@, i as int));
            }
            return Err(TrieError::CorruptRecord);
        }
        i += 1;
    }
    let n = TrieNode { value, next };
    proof {
        let d = spec_decode_node(b@).unwrap();
        assert(n@.next =~= d.next);
        assert(n@ =~= d);
    }
    Ok(n)
}

} // verus!
