//! Trie engine: traversal, node allocation, value append and lookup over the
//! backing store, with a write-through node cache.
//!
//! The mathematical model reads the store contents as a map from byte keys to
//! byte values. `walk_from` follows one edge per key byte through the encoded
//! node records; `trie_lookup` decodes the value cell of the node a key
//! reaches; `trie_views` is the whole trie as a map from every byte-string
//! key to the sequence of values inserted under it.
use vstd::prelude::*;
use vstd::bytes::{
    spec_u64_to_le_bytes, spec_u64_from_le_bytes, u64_to_le_bytes, u64_from_le_bytes,
    lemma_auto_spec_u64_to_from_le_bytes,
};
use std::collections::HashMap;
use crate::TrieError;
use crate::keys::{
    MAX_NAMESPACE_LEN, spec_meta_key, spec_node_key, spec_value_key, meta_key, node_key, value_key,
    lemma_keys_disjoint, lemma_keys_in_namespace,
};
use crate::node_codec::{
    TrieNode, NodeV, spec_empty_node, spec_decode_node, spec_encode_node, encode_node, decode_node,
    lemma_node_round_trip,
};
use crate::value_codec::{
    spec_decode_values, spec_encode_values, all_records_fit, cell_wf,
    RECORD_LEN_LIMIT, append_record, decode_values, lemma_values_round_trip,
    lemma_encode_values_snoc,
};
use crate::store::Store;
use crate::items::Items;

verus! {

/// The node record stored for index `n`, decoded; nothing if the record is
/// absent or corrupt.
pub open spec fn node_at(m: Map<Seq<u8>, Seq<u8>>, p: Seq<u8>, n: u64) -> Option<NodeV> {
    if m.contains_key(spec_node_key(p, n)) {
        spec_decode_node(m[spec_node_key(p, n)])
    } else {
        None
    }
}

/// Whether a node record is stored for index `n`.
pub open spec fn live(m: Map<Seq<u8>, Seq<u8>>, p: Seq<u8>, n: u64) -> bool {
    m.contains_key(spec_node_key(p, n))
}

/// Whether index `n` has a stored record that decodes.
pub open spec fn node_ok(m: Map<Seq<u8>, Seq<u8>>, p: Seq<u8>, n: u64) -> bool {
    node_at(m, p, n) is Some
}

/// The node index reached from node `n` by following one edge per byte of
/// `key`, or nothing if some edge is missing along the way.
pub open spec fn walk_from(m: Map<Seq<u8>, Seq<u8>>, p: Seq<u8>, n: u64, key: Seq<u8>) -> Option<
    u64,
>
    decreases key.len(),
{
    if key.len() == 0 {
        Some(n)
    } else {
        match node_at(m, p, n) {
            None => None,
            Some(nd) => match nd.next[key[0] as int] {
                None => None,
                Some(i) => walk_from(m, p, i as u64, key.drop_first()),
            },
        }
    }
}

/// The records of node `n`'s value cell; an absent cell holds no records.
pub open spec fn cell_values(m: Map<Seq<u8>, Seq<u8>>, p: Seq<u8>, n: u64) -> Seq<Seq<u8>> {
    if m.contains_key(spec_value_key(p, n)) {
        spec_decode_values(m[spec_value_key(p, n)])
    } else {
        Seq::empty()
    }
}

/// The values stored under `key`: the value cell of the node `key` reaches,
/// or the empty sequence when some edge is missing.
pub open spec fn trie_lookup(m: Map<Seq<u8>, Seq<u8>>, p: Seq<u8>, key: Seq<u8>) -> Seq<Seq<u8>> {
    match walk_from(m, p, 0, key) {
        None => Seq::empty(),
        Some(n) => cell_values(m, p, n),
    }
}

/// The whole trie, as a map from every byte-string key to its values.
pub open spec fn trie_views(m: Map<Seq<u8>, Seq<u8>>, p: Seq<u8>) -> Map<Seq<u8>, Seq<Seq<u8>>> {
    Map::new(|k: Seq<u8>| true, |k: Seq<u8>| trie_lookup(m, p, k))
}

/// Whether one edge is sound: it points at a strictly positive index, at or
/// below the allocation counter, whose record is stored and decodes.
pub open spec fn edge_ok(m: Map<Seq<u8>, Seq<u8>>, p: Seq<u8>, qty: u64, e: Option<u32>) -> bool {
    match e {
        None => true,
        Some(i) => 1 <= i && i as u64 <= qty && node_ok(m, p, i as u64),
    }
}

/// Whether every edge of a node is sound.
pub open spec fn node_edges_ok(m: Map<Seq<u8>, Seq<u8>>, p: Seq<u8>, qty: u64, nd: NodeV) -> bool {
    forall|b: int| 0 <= b < 256 ==> edge_ok(m, p, qty, #[trigger] nd.next[b])
}

/// A path assignment: one key string per stored node, the root owning the
/// empty string and each edge extending its source's string by the edge byte.
pub open spec fn paths_ok(m: Map<Seq<u8>, Seq<u8>>, p: Seq<u8>, pm: Map<u64, Seq<u8>>) -> bool {
    &&& pm.contains_key(0) && pm[0] == Seq::<u8>::empty()
    &&& forall|n: u64| #[trigger] live(m, p, n) ==> pm.contains_key(n)
    &&& forall|n: u64, b: int|
        node_at(m, p, n) is Some && 0 <= b < 256 && (#[trigger] node_at(
            m,
            p,
            n,
        ).unwrap().next[b]) is Some ==> {
            let i = node_at(m, p, n).unwrap().next[b].unwrap() as u64;
            pm.contains_key(i) && pm[i] == pm[n].push(b as u8)
        }
}

/// The trie structure a namespace stores is sound for allocation counter
/// `qty`: the root is stored and decodes, every stored node decodes and has
/// sound edges, no record exists beyond the counter, every stored value cell
/// is an exact record-sequence encoding, and some path assignment exists.
pub open spec fn store_wf(m: Map<Seq<u8>, Seq<u8>>, p: Seq<u8>, qty: u64) -> bool {
    &&& qty <= u32::MAX as u64
    &&& node_ok(m, p, 0)
    &&& forall|n: u64| #[trigger] live(m, p, n) ==> node_ok(m, p, n) && node_edges_ok(
        m,
        p,
        qty,
        node_at(m, p, n).unwrap(),
    )
    &&& forall|n: u64| n > qty ==> !(#[trigger] live(m, p, n))
    &&& forall|n: u64| n > qty ==> !m.contains_key(#[trigger] spec_value_key(p, n))
    &&& forall|n: u64|
        m.contains_key(#[trigger] spec_value_key(p, n)) ==> cell_wf(m[spec_value_key(p, n)])
    &&& exists|pm: Map<u64, Seq<u8>>| paths_ok(m, p, pm)
}

/// The metadata record: the allocation counter as eight little-endian bytes.
pub open spec fn spec_decode_meta(b: Seq<u8>) -> Option<u64> {
    if b.len() == 8 {
        Some(spec_u64_from_le_bytes(b))
    } else {
        None
    }
}

/// Whether the stored metadata agrees with allocation counter `qty`; an
/// absent record stands for a namespace that never allocated.
pub open spec fn meta_matches(m: Map<Seq<u8>, Seq<u8>>, p: Seq<u8>, qty: u64) -> bool {
    match m.get(spec_meta_key(p)) {
        Some(b) => spec_decode_meta(b) == Some(qty),
        None => qty == 0,
    }
}

/// A store whose namespace `p` holds a sound trie with matching metadata.
pub open spec fn store_state_wf(m: Map<Seq<u8>, Seq<u8>>, p: Seq<u8>) -> bool {
    exists|q: u64| #[trigger] meta_matches(m, p, q) && store_wf(m, p, q)
}

/// A store that holds nothing at all under namespace `p`.
pub open spec fn namespace_clear(m: Map<Seq<u8>, Seq<u8>>, p: Seq<u8>) -> bool {
    forall|k: Seq<u8>| #[trigger] m.contains_key(k) ==> !p.is_prefix_of(k)
}

/// Walking reads node records only: two stores that agree on every node key
/// of the namespace walk alike.
pub proof fn lemma_walk_same_nodes(
    m1: Map<Seq<u8>, Seq<u8>>,
    m2: Map<Seq<u8>, Seq<u8>>,
    p: Seq<u8>,
    n: u64,
    key: Seq<u8>,
)
    requires
        forall|x: u64| m1.get(#[trigger] spec_node_key(p, x)) == m2.get(spec_node_key(p, x)),
    ensures
        walk_from(m1, p, n, key) == walk_from(m2, p, n, key),
    decreases key.len(),
{
    if key.len() > 0 {
        assert(m1.get(spec_node_key(p, n)) == m2.get(spec_node_key(p, n)));
        assert(node_at(m1, p, n) == node_at(m2, p, n));
        match node_at(m1, p, n) {
            None => {},
            Some(nd) => {
                match nd.next[key[0] as int] {
                    None => {},
                    Some(i) => {
                        lemma_walk_same_nodes(m1, m2, p, i as u64, key.drop_first());
                    },
                }
            },
        }
    }
}

/// Walking a concatenation walks the first part, then the second from where
/// the first landed.
pub proof fn lemma_walk_append(
    m: Map<Seq<u8>, Seq<u8>>,
    p: Seq<u8>,
    n: u64,
    k1: Seq<u8>,
    k2: Seq<u8>,
)
    ensures
        walk_from(m, p, n, k1 + k2) == match walk_from(m, p, n, k1) {
            Some(x) => walk_from(m, p, x, k2),
            None => None,
        },
    decreases k1.len(),
{
    if k1.len() == 0 {
        assert(k1 + k2 =~= k2);
    } else {
        assert((k1 + k2)[0] == k1[0]);
        assert((k1 + k2).drop_first() =~= k1.drop_first() + k2);
        match node_at(m, p, n) {
            None => {},
            Some(nd) => {
                match nd.next[k1[0] as int] {
                    None => {},
                    Some(i) => {
                        lemma_walk_append(m, p, i as u64, k1.drop_first(), k2);
                    },
                }
            },
        }
    }
}

/// Under a path assignment, walking `key` from `x` lands on the node whose
/// path is `x`'s path extended by `key`.
pub proof fn lemma_walk_path(
    m: Map<Seq<u8>, Seq<u8>>,
    p: Seq<u8>,
    pm: Map<u64, Seq<u8>>,
    x: u64,
    key: Seq<u8>,
    y: u64,
)
    requires
        paths_ok(m, p, pm),
        pm.contains_key(x),
        walk_from(m, p, x, key) == Some(y),
    ensures
        pm.contains_key(y),
        pm[y] == pm[x] + key,
    decreases key.len(),
{
    if key.len() == 0 {
        assert(y == x);
        assert(pm[x] + key =~= pm[x]);
    } else {
        let nd = node_at(m, p, x).unwrap();
        let i = nd.next[key[0] as int].unwrap() as u64;
        assert(pm.contains_key(i) && pm[i] == pm[x].push(key[0]));
        lemma_walk_path(m, p, pm, i, key.drop_first(), y);
        assert(pm[y] == pm[x].push(key[0]) + key.drop_first());
        assert(pm[x].push(key[0]) + key.drop_first() =~= pm[x] + key);
    }
}

/// Two different keys never land on the same node: the path assignment gives
/// each reached node exactly one key.
pub proof fn lemma_walk_injective(
    m: Map<Seq<u8>, Seq<u8>>,
    p: Seq<u8>,
    qty: u64,
    k1: Seq<u8>,
    k2: Seq<u8>,
)
    requires
        store_wf(m, p, qty),
        walk_from(m, p, 0, k1) is Some,
        walk_from(m, p, 0, k1) == walk_from(m, p, 0, k2),
    ensures
        k1 == k2,
{
    let pm = choose|pm: Map<u64, Seq<u8>>| paths_ok(m, p, pm);
    let y = walk_from(m, p, 0, k1).unwrap();
    lemma_walk_path(m, p, pm, 0, k1, y);
    lemma_walk_path(m, p, pm, 0, k2, y);
    assert(pm[0] + k1 =~= k1);
    assert(pm[0] + k2 =~= k2);
}

/// Inserting under a key that is no node key of the namespace leaves every
/// walk unchanged.
pub proof fn lemma_walk_insert_other(
    m: Map<Seq<u8>, Seq<u8>>,
    p: Seq<u8>,
    k0: Seq<u8>,
    v0: Seq<u8>,
    n: u64,
    key: Seq<u8>,
)
    requires
        forall|x: u64| #[trigger] spec_node_key(p, x) != k0,
    ensures
        walk_from(m.insert(k0, v0), p, n, key) == walk_from(m, p, n, key),
{
    let m2 = m.insert(k0, v0);
    assert forall|x: u64| m.get(#[trigger] spec_node_key(p, x)) == m2.get(
        spec_node_key(p, x),
    ) by {
        assert(spec_node_key(p, x) != k0);
    }
    lemma_walk_same_nodes(m, m2, p, n, key);
}


/// One allocation step's effect on walks, forward: a walk that succeeded
/// before the child record and the parent's new edge were written still
/// lands on the same node.
proof fn lemma_walk_alloc_fwd(
    m: Map<Seq<u8>, Seq<u8>>,
    m2: Map<Seq<u8>, Seq<u8>>,
    p: Seq<u8>,
    qty: u64,
    parent: u64,
    b: u8,
    x: u64,
    key: Seq<u8>,
    y: u64,
)
    requires
        store_wf(m, p, qty),
        qty < u32::MAX as u64,
        node_ok(m, p, parent),
        node_at(m, p, parent).unwrap().next[b as int] is None,
        node_at(m2, p, parent) == Some(
            NodeV {
                value: node_at(m, p, parent).unwrap().value,
                next: node_at(m, p, parent).unwrap().next.update(
                    b as int,
                    Some((qty + 1) as u32),
                ),
            },
        ),
        node_at(m2, p, (qty + 1) as u64) == Some(spec_empty_node(b)),
        forall|x2: u64|
            x2 != parent && x2 != (qty + 1) as u64 ==> node_at(m2, p, x2) == node_at(m, p, x2),
        walk_from(m, p, x, key) == Some(y),
    ensures
        walk_from(m2, p, x, key) == Some(y),
    decreases key.len(),
{
    if key.len() > 0 {
        let nd = node_at(m, p, x).unwrap();
        let i = nd.next[key[0] as int].unwrap() as u64;
        assert(live(m, p, x));
        assert(x != (qty + 1) as u64);
        if x == parent {
            assert(key[0] != b);
            assert(node_at(m2, p, x).unwrap().next[key[0] as int] == nd.next[key[0] as int]);
        } else {
            assert(node_at(m2, p, x) == node_at(m, p, x));
        }
        lemma_walk_alloc_fwd(m, m2, p, qty, parent, b, i, key.drop_first(), y);
    }
}

/// One allocation step's effect on walks, backward: a walk that succeeds
/// after the step either succeeded before with the same result, or lands on
/// the freshly allocated node.
proof fn lemma_walk_alloc_bwd(
    m: Map<Seq<u8>, Seq<u8>>,
    m2: Map<Seq<u8>, Seq<u8>>,
    p: Seq<u8>,
    qty: u64,
    parent: u64,
    b: u8,
    x: u64,
    key: Seq<u8>,
    y: u64,
)
    requires
        store_wf(m, p, qty),
        qty < u32::MAX as u64,
        node_ok(m, p, parent),
        node_at(m, p, parent).unwrap().next[b as int] is None,
        node_at(m2, p, parent) == Some(
            NodeV {
                value: node_at(m, p, parent).unwrap().value,
                next: node_at(m, p, parent).unwrap().next.update(
                    b as int,
                    Some((qty + 1) as u32),
                ),
            },
        ),
        node_at(m2, p, (qty + 1) as u64) == Some(spec_empty_node(b)),
        forall|x2: u64|
            x2 != parent && x2 != (qty + 1) as u64 ==> node_at(m2, p, x2) == node_at(m, p, x2),
        live(m, p, x),
        node_ok(m, p, x),
        walk_from(m2, p, x, key) == Some(y),
    ensures
        walk_from(m, p, x, key) == Some(y) || y == (qty + 1) as u64,
    decreases key.len(),
{
    let mnew = (qty + 1) as u64;
    if key.len() > 0 {
        assert(x != mnew);
        let nd = node_at(m, p, x).unwrap();
        let nd2 = node_at(m2, p, x).unwrap();
        if x == parent && key[0] == b {
            assert(nd2.next[key[0] as int] == Some((qty + 1) as u32));
            let rest = key.drop_first();
            assert(walk_from(m2, p, mnew, rest) == Some(y));
            if rest.len() == 0 {
                assert(y == mnew);
            } else {
                assert(node_at(m2, p, mnew).unwrap().next[rest[0] as int] is None);
                assert(false);
            }
        } else {
            assert(nd2.next[key[0] as int] == nd.next[key[0] as int]);
            let i = nd.next[key[0] as int].unwrap() as u64;
            assert(edge_ok(m, p, qty, nd.next[key[0] as int]));
            assert(live(m, p, i) && node_ok(m, p, i));
            lemma_walk_alloc_bwd(m, m2, p, qty, parent, b, i, key.drop_first(), y);
        }
    }
}

/// Allocating a node: writing the fresh child record and then the parent
/// record with one new edge keeps the stored trie sound for the bumped
/// counter, preserves every walk that already succeeded, preserves every
/// key's values, and touches no value cell, no metadata and no key outside
/// the namespace.
proof fn lemma_alloc_update(
    m: Map<Seq<u8>, Seq<u8>>,
    p: Seq<u8>,
    qty: u64,
    parent: u64,
    b: u8,
    cbytes: Seq<u8>,
    pbytes: Seq<u8>,
    kpre: Seq<u8>,
)
    requires
        store_wf(m, p, qty),
        qty < u32::MAX as u64,
        walk_from(m, p, 0, kpre) == Some(parent),
        node_ok(m, p, parent),
        node_at(m, p, parent).unwrap().next[b as int] is None,
        spec_decode_node(cbytes) == Some(spec_empty_node(b)),
        spec_decode_node(pbytes) == Some(
            NodeV {
                value: node_at(m, p, parent).unwrap().value,
                next: node_at(m, p, parent).unwrap().next.update(
                    b as int,
                    Some((qty + 1) as u32),
                ),
            },
        ),
    ensures
        ({
            let mnew = (qty + 1) as u64;
            let m2 = m.insert(spec_node_key(p, mnew), cbytes).insert(
                spec_node_key(p, parent),
                pbytes,
            );
            &&& store_wf(m2, p, mnew)
            &&& node_at(m2, p, mnew) == Some(spec_empty_node(b))
            &&& node_at(m2, p, parent) == spec_decode_node(pbytes)
            &&& forall|k: Seq<u8>|
                walk_from(m, p, 0, k) is Some ==> walk_from(m2, p, 0, k) == walk_from(m, p, 0, k)
            &&& forall|k: Seq<u8>|
                walk_from(m2, p, 0, k) == Some(mnew) ==> k == kpre.push(b)
            &&& forall|k: Seq<u8>|
                (#[trigger] walk_from(m2, p, 0, k)) is Some ==> walk_from(m, p, 0, k) is Some
                    || walk_from(m2, p, 0, k) == Some(mnew)
            &&& forall|k: Seq<u8>| trie_lookup(m2, p, k) == trie_lookup(m, p, k)
            &&& forall|x: u64|
                m2.get(#[trigger] spec_value_key(p, x)) == m.get(spec_value_key(p, x))
            &&& m2.get(spec_meta_key(p)) == m.get(spec_meta_key(p))
            &&& forall|k: Seq<u8>| !p.is_prefix_of(k) ==> m2.get(k) == m.get(k)
        }),
{
    let mnew = (qty + 1) as u64;
    let ck = spec_node_key(p, mnew);
    let pk = spec_node_key(p, parent);
    let m2 = m.insert(ck, cbytes).insert(pk, pbytes);
    let pnd = node_at(m, p, parent).unwrap();
    let pnd2 = NodeV { value: pnd.value, next: pnd.next.update(b as int, Some((qty + 1) as u32)) };
    assert(live(m, p, parent));
    assert(parent <= qty);
    assert(parent != mnew);
    lemma_keys_disjoint(p, mnew, parent);
    assert(node_at(m2, p, mnew) == Some(spec_empty_node(b)));
    assert(node_at(m2, p, parent) == Some(pnd2));
    assert forall|x2: u64| x2 != parent && x2 != mnew implies node_at(m2, p, x2) == node_at(
        m,
        p,
        x2,
    ) by {
        lemma_keys_disjoint(p, x2, mnew);
        lemma_keys_disjoint(p, x2, parent);
    }
    assert forall|x: u64| m2.get(#[trigger] spec_value_key(p, x)) == m.get(
        spec_value_key(p, x),
    ) by {
        lemma_keys_disjoint(p, x, mnew);
        lemma_keys_disjoint(p, x, parent);
    }
    assert(m2.get(spec_meta_key(p)) == m.get(spec_meta_key(p))) by {
        lemma_keys_disjoint(p, mnew, mnew);
        lemma_keys_disjoint(p, parent, parent);
    }
    assert forall|k: Seq<u8>| !p.is_prefix_of(k) implies m2.get(k) == m.get(k) by {
        lemma_keys_in_namespace(p, mnew);
        lemma_keys_in_namespace(p, parent);
    }
    // the stored trie stays sound for the bumped counter
    assert(node_ok(m2, p, 0)) by {
        if parent != 0 {
            assert(0 != mnew);
        }
    }
    assert forall|n: u64| #[trigger] live(m2, p, n) implies node_ok(m2, p, n) && node_edges_ok(
        m2,
        p,
        mnew,
        node_at(m2, p, n).unwrap(),
    ) by {
        lemma_keys_disjoint(p, n, mnew);
        lemma_keys_disjoint(p, n, parent);
        if n == mnew {
            assert(node_at(m2, p, n) == Some(spec_empty_node(b)));
            assert forall|b2: int| 0 <= b2 < 256 implies edge_ok(
                m2,
                p,
                mnew,
                #[trigger] spec_empty_node(b).next[b2],
            ) by {
                assert(spec_empty_node(b).next[b2] is None);
            }
        } else {
            let nd = if n == parent {
                pnd
            } else {
                node_at(m, p, n).unwrap()
            };
            let nd2 = node_at(m2, p, n).unwrap();
            assert(live(m, p, n));
            assert(node_edges_ok(m, p, qty, nd));
            assert forall|b2: int| 0 <= b2 < 256 implies edge_ok(
                m2,
                p,
                mnew,
                #[trigger] nd2.next[b2],
            ) by {
                if n == parent && b2 == b as int {
                    assert(nd2.next[b2] == Some((qty + 1) as u32));
                    assert(node_ok(m2, p, mnew));
                } else {
                    assert(nd2.next[b2] == nd.next[b2]);
                    assert(edge_ok(m, p, qty, nd.next[b2]));
                    match nd.next[b2] {
                        None => {},
                        Some(i) => {
                            lemma_keys_disjoint(p, i as u64, mnew);
                            lemma_keys_disjoint(p, i as u64, parent);
                            assert(i as u64 != mnew);
                            if i as u64 == parent {
                                assert(node_ok(m2, p, i as u64));
                            } else {
                                assert(node_at(m2, p, i as u64) == node_at(m, p, i as u64));
                            }
                        },
                    }
                }
            }
        }
    }
    assert forall|n: u64| n > mnew implies !(#[trigger] live(m2, p, n)) by {
        lemma_keys_disjoint(p, n, mnew);
        lemma_keys_disjoint(p, n, parent);
        assert(!live(m, p, n));
    }
    assert forall|n: u64| n > mnew implies !m2.contains_key(#[trigger] spec_value_key(p, n)) by {
        lemma_keys_disjoint(p, n, mnew);
        lemma_keys_disjoint(p, n, parent);
    }
    assert forall|n: u64| m2.contains_key(#[trigger] spec_value_key(p, n)) implies cell_wf(
        m2[spec_value_key(p, n)],
    ) by {
        lemma_keys_disjoint(p, n, mnew);
        lemma_keys_disjoint(p, n, parent);
    }
    let pm = choose|pm: Map<u64, Seq<u8>>| paths_ok(m, p, pm);
    let pm2 = pm.insert(mnew, pm[parent].push(b));
    assert(paths_ok(m2, p, pm2)) by {
        assert(pm.contains_key(parent));
        assert(0 != mnew);
        assert(pm2.contains_key(0) && pm2[0] == Seq::<u8>::empty());
        assert forall|n: u64| #[trigger] live(m2, p, n) implies pm2.contains_key(n) by {
            lemma_keys_disjoint(p, n, mnew);
            lemma_keys_disjoint(p, n, parent);
            if n != mnew {
                assert(live(m, p, n));
            }
        }
        assert forall|n: u64, b2: int|
            node_at(m2, p, n) is Some && 0 <= b2 < 256 && (#[trigger] node_at(
                m2,
                p,
                n,
            ).unwrap().next[b2]) is Some implies {
            let i = node_at(m2, p, n).unwrap().next[b2].unwrap() as u64;
            pm2.contains_key(i) && pm2[i] == pm2[n].push(b2 as u8)
        } by {
            lemma_keys_disjoint(p, n, mnew);
            lemma_keys_disjoint(p, n, parent);
            let i = node_at(m2, p, n).unwrap().next[b2].unwrap() as u64;
            if n == mnew {
                assert(spec_empty_node(b).next[b2] is None);
                assert(false);
            } else if n == parent && b2 == b as int {
                assert(i == mnew);
                assert(pm2[i] == pm[parent].push(b));
            } else {
                let nd = if n == parent {
                    pnd
                } else {
                    node_at(m, p, n).unwrap()
                };
                assert(node_at(m2, p, n).unwrap().next[b2] == nd.next[b2]);
                assert(live(m, p, n));
                assert(node_edges_ok(m, p, qty, node_at(m, p, n).unwrap()));
                assert(edge_ok(m, p, qty, node_at(m, p, n).unwrap().next[b2]));
                assert(i <= qty);
                assert(pm.contains_key(i) && pm[i] == pm[n].push(b2 as u8));
            }
        }
    }
    assert(store_wf(m2, p, mnew));
    assert forall|k: Seq<u8>| (#[trigger] walk_from(m2, p, 0, k)) is Some implies walk_from(
        m,
        p,
        0,
        k,
    ) is Some || walk_from(m2, p, 0, k) == Some(mnew) by {
        let y = walk_from(m2, p, 0, k).unwrap();
        lemma_walk_alloc_bwd(m, m2, p, qty, parent, b, 0, k, y);
    }
    assert forall|k: Seq<u8>| walk_from(m2, p, 0, k) == Some(mnew) implies k == kpre.push(b) by {
        lemma_walk_path(m, p, pm, 0, kpre, parent);
        assert(pm[0] + kpre =~= kpre);
        lemma_walk_path(m2, p, pm2, 0, k, mnew);
        assert(pm2[0] + k =~= k);
        assert(pm2[mnew] == pm[parent].push(b));
    }
    // walks that succeeded are preserved, and values are untouched
    assert forall|k: Seq<u8>| walk_from(m, p, 0, k) is Some implies walk_from(m2, p, 0, k)
        == walk_from(m, p, 0, k) by {
        let y = walk_from(m, p, 0, k).unwrap();
        lemma_walk_alloc_fwd(m, m2, p, qty, parent, b, 0, k, y);
    }
    assert forall|k: Seq<u8>| trie_lookup(m2, p, k) == trie_lookup(m, p, k) by {
        match walk_from(m, p, 0, k) {
            Some(y) => {
                lemma_walk_alloc_fwd(m, m2, p, qty, parent, b, 0, k, y);
                assert(m2.get(spec_value_key(p, y)) == m.get(spec_value_key(p, y)));
            },
            None => {
                match walk_from(m2, p, 0, k) {
                    None => {},
                    Some(y) => {
                        lemma_walk_alloc_bwd(m, m2, p, qty, parent, b, 0, k, y);
                        assert(y == mnew);
                        assert(!m.contains_key(spec_value_key(p, mnew)));
                        assert(m2.get(spec_value_key(p, mnew)) == m.get(spec_value_key(p, mnew)));
                        assert(cell_values(m2, p, mnew) =~= Seq::<Seq<u8>>::empty());
                    },
                }
            },
        }
    }
}

/// Writing under a key outside all three key families of the namespace
/// leaves the stored trie's soundness, every node, every value cell and
/// every lookup unchanged.
proof fn lemma_store_wf_insert_other(
    m: Map<Seq<u8>, Seq<u8>>,
    p: Seq<u8>,
    qty: u64,
    k0: Seq<u8>,
    v0: Seq<u8>,
)
    requires
        store_wf(m, p, qty),
        forall|x: u64| #[trigger] spec_node_key(p, x) != k0,
        forall|x: u64| #[trigger] spec_value_key(p, x) != k0,
    ensures
        store_wf(m.insert(k0, v0), p, qty),
        forall|x: u64|
            node_at(m.insert(k0, v0), p, x) == node_at(m, p, x) && (live(m.insert(k0, v0), p, x)
                == live(m, p, x)),
        forall|x: u64| cell_values(m.insert(k0, v0), p, x) == cell_values(m, p, x),
        forall|k: Seq<u8>| trie_lookup(m.insert(k0, v0), p, k) == trie_lookup(m, p, k),
{
    let m2 = m.insert(k0, v0);
    assert forall|x: u64| node_at(m2, p, x) == node_at(m, p, x) && (live(m2, p, x) == live(
        m,
        p,
        x,
    )) by {
        assert(spec_node_key(p, x) != k0);
    }
    assert forall|x: u64| cell_values(m2, p, x) == cell_values(m, p, x) by {
        assert(spec_value_key(p, x) != k0);
    }
    assert forall|n: u64| #[trigger] live(m2, p, n) implies node_ok(m2, p, n) && node_edges_ok(
        m2,
        p,
        qty,
        node_at(m2, p, n).unwrap(),
    ) by {
        assert(live(m, p, n));
        let nd = node_at(m, p, n).unwrap();
        assert(node_edges_ok(m, p, qty, nd));
        assert forall|b2: int| 0 <= b2 < 256 implies edge_ok(m2, p, qty, #[trigger] nd.next[b2]) by {
            assert(edge_ok(m, p, qty, nd.next[b2]));
        }
    }
    assert forall|n: u64| m2.contains_key(#[trigger] spec_value_key(p, n)) implies cell_wf(
        m2[spec_value_key(p, n)],
    ) by {
        assert(spec_value_key(p, n) != k0);
    }
    let pm = choose|pm: Map<u64, Seq<u8>>| paths_ok(m, p, pm);
    assert(paths_ok(m2, p, pm)) by {
        assert forall|n: u64| #[trigger] live(m2, p, n) implies pm.contains_key(n) by {
            assert(live(m, p, n));
        }
    }
    assert(store_wf(m2, p, qty));
    assert forall|k: Seq<u8>| trie_lookup(m2, p, k) == trie_lookup(m, p, k) by {
        lemma_walk_insert_other(m, p, k0, v0, 0, k);
    }
}

/// A namespace nothing was ever stored under looks up empty for every key.
pub proof fn lemma_clear_lookup_empty(
    m: Map<Seq<u8>, Seq<u8>>,
    p: Seq<u8>,
    key: Seq<u8>,
)
    requires
        namespace_clear(m, p),
    ensures
        (trie_lookup(m, p, key) == Seq::<Seq<u8>>::empty()),
{
    lemma_keys_in_namespace(p, 0);
    assert(!m.contains_key(spec_node_key(p, 0)));
    if key.len() == 0 {
        assert(walk_from(m, p, 0, key) == Some(0u64));
        assert(!m.contains_key(spec_value_key(p, 0)));
    } else {
        assert(node_at(m, p, 0) is None);
        assert(walk_from(m, p, 0, key) is None);
    }
}

/// How many leading bytes of `key` already have edges in the stored trie,
/// walking from node `n`: the length of the longest walkable prefix.
pub open spec fn present_path_len(m: Map<Seq<u8>, Seq<u8>>, p: Seq<u8>, n: u64, key: Seq<u8>) -> nat
    decreases key.len(),
{
    if key.len() == 0 {
        0
    } else {
        match node_at(m, p, n) {
            None => 0,
            Some(nd) => match nd.next[key[0] as int] {
                None => 0,
                Some(i) => 1 + present_path_len(m, p, i as u64, key.drop_first()),
            },
        }
    }
}

/// A prefix of `key` is walkable exactly when it is no longer than the
/// present path.
pub proof fn lemma_present_path_walk(
    m: Map<Seq<u8>, Seq<u8>>,
    p: Seq<u8>,
    n: u64,
    key: Seq<u8>,
    j: int,
)
    requires
        0 <= j <= key.len(),
    ensures
        present_path_len(m, p, n, key) <= key.len(),
        walk_from(m, p, n, key.take(j)) is Some <==> j <= present_path_len(m, p, n, key),
    decreases key.len(),
{
    if key.len() == 0 {
        assert(key.take(j) =~= Seq::<u8>::empty());
    } else {
        if j == 0 {
            assert(key.take(0) =~= Seq::<u8>::empty());
        }
        match node_at(m, p, n) {
            None => {
                if j > 0 {
                    assert(key.take(j)[0] == key[0]);
                    assert(walk_from(m, p, n, key.take(j)) is None);
                }
                lemma_present_path_walk(m, p, n, key.drop_first(), 0);
            },
            Some(nd) => {
                match nd.next[key[0] as int] {
                    None => {
                        if j > 0 {
                            assert(key.take(j)[0] == key[0]);
                            assert(walk_from(m, p, n, key.take(j)) is None);
                        }
                        lemma_present_path_walk(m, p, n, key.drop_first(), 0);
                    },
                    Some(i) => {
                        lemma_present_path_walk(
                            m,
                            p,
                            i as u64,
                            key.drop_first(),
                            if j > 0 { j - 1 } else { 0 },
                        );
                        if j > 0 {
                            assert(key.take(j)[0] == key[0]);
                            assert(key.take(j).drop_first() =~= key.drop_first().take(j - 1));
                            assert(walk_from(m, p, n, key.take(j)) == walk_from(
                                m,
                                p,
                                i as u64,
                                key.drop_first().take(j - 1),
                            ));
                        }
                    },
                }
            },
        }
    }
}

/// A stored node only ever grows: it keeps its edge byte and every edge it
/// had, and is never deleted; slots may go from unset to set, nothing else.
pub open spec fn node_extends(before: Option<NodeV>, after: Option<NodeV>) -> bool {
    match before {
        None => true,
        Some(a) => match after {
            None => false,
            Some(b) => {
                &&& b.value == a.value
                &&& b.next.len() == a.next.len()
                &&& forall|i: int|
                    0 <= i < a.next.len() && (#[trigger] a.next[i]) is Some ==> b.next[i]
                        == a.next[i]
            },
        },
    }
}

/// Growing is transitive.
pub proof fn lemma_node_extends_trans(a: Option<NodeV>, b: Option<NodeV>, c: Option<NodeV>)
    requires
        node_extends(a, b),
        node_extends(b, c),
    ensures
        node_extends(a, c),
{
}

/// The store contents after replaying a run of puts, oldest first.
pub open spec fn apply_log(m: Map<Seq<u8>, Seq<u8>>, log: Seq<(Seq<u8>, Seq<u8>)>) -> Map<
    Seq<u8>,
    Seq<u8>,
>
    decreases log.len(),
{
    if log.len() == 0 {
        m
    } else {
        apply_log(m, log.drop_last()).insert(log.last().0, log.last().1)
    }
}

/// No dangling edge: every edge of every stored node of the namespace points
/// at an index whose record is stored. This is the crash-ordering guarantee:
/// it holds of the store after replaying any prefix of an insert's puts, so a
/// write cut short anywhere can only leave an unreachable child, never an
/// edge to a missing node.
pub open spec fn edge_target_live(m: Map<Seq<u8>, Seq<u8>>, p: Seq<u8>, e: Option<u32>) -> bool {
    match e {
        None => true,
        Some(i) => live(m, p, i as u64),
    }
}

/// No dangling edge: every edge of every stored node of the namespace points
/// at an index whose record is stored.
pub open spec fn edges_closed(m: Map<Seq<u8>, Seq<u8>>, p: Seq<u8>) -> bool {
    forall|x: u64, b: int|
        node_at(m, p, x) is Some && 0 <= b < 256 ==> edge_target_live(
            m,
            p,
            #[trigger] node_at(m, p, x).unwrap().next[b],
        )
}


impl Default for TrieData {
    /// A namespace that never allocated.
    fn default() -> (r: Self)
        ensures
            r.qty == 0,
    {
        TrieData { qty: 0 }
    }
}

/// The trie engine: a namespace prefix, the allocation counter, a
/// write-through node cache, and the backing store it owns.
pub struct Trie {
    store: Store,
    prefix: Vec<u8>,
    data: TrieData,
    cache: HashMap<u64, TrieNode>,
}

impl View for Trie {
    type V = Map<Seq<u8>, Seq<Seq<u8>>>;

    /// The whole index: every byte-string key mapped to the values inserted
    /// under it, in insertion order.
    closed spec fn view(&self) -> Map<Seq<u8>, Seq<Seq<u8>>> {
        trie_views(self.store@, self.prefix@)
    }
}

impl Trie {
    /// The backing store's contents.
    pub closed spec fn smap(self) -> Map<Seq<u8>, Seq<u8>> {
        self.store@
    }

    /// The namespace prefix this engine is bound to.
    pub closed spec fn prefix_spec(self) -> Seq<u8> {
        self.prefix@
    }

    /// The store puts this engine has issued since the log was last drained,
    /// oldest first.
    pub closed spec fn log(self) -> Seq<(Seq<u8>, Seq<u8>)> {
        self.store.log()
    }

    /// The allocation counter.
    pub closed spec fn count(self) -> u64 {
        self.data.qty
    }

    /// Every cached node agrees with the stored record under its node key.
    pub closed spec fn cache_ok(self) -> bool {
        forall|n: u64|
            #[trigger] self.cache@.contains_key(n) ==> node_at(self.store@, self.prefix@, n)
                == Some(self.cache@[n]@)
    }

    /// A usable engine: prefix within bounds, counter within index range and
    /// matching the stored metadata, sound stored trie, coherent cache.
    pub closed spec fn wf(self) -> bool {
        &&& self.prefix@.len() <= MAX_NAMESPACE_LEN
        &&& self.data.qty <= u32::MAX as u64
        &&& store_wf(self.store@, self.prefix@, self.data.qty)
        &&& meta_matches(self.store@, self.prefix@, self.data.qty)
        &&& self.cache_ok()
    }

    /// The index is a function of the store contents and the prefix alone.
    pub proof fn lemma_view_is_lookup(self)
        ensures
            self@ == trie_views(self.smap(), self.prefix_spec()),
            forall|k: Seq<u8>| self@[k] == #[trigger] trie_lookup(self.smap(), self.prefix_spec(), k),
    {
    }

    /// A usable engine leaves its store sound: the namespace holds a trie
    /// that a fresh engine can be opened over, for this engine's own counter.
    /// With `new`'s and `into_store`'s contracts this closes the loop: after
    /// close and reopen over the same contents, every lookup is reproduced.
    pub proof fn lemma_wf_store_state(self)
        requires
            self.wf(),
        ensures
            store_state_wf(self.smap(), self.prefix_spec()),
            store_wf(self.smap(), self.prefix_spec(), self.count()),
            meta_matches(self.smap(), self.prefix_spec(), self.count()),
    {
        assert(meta_matches(self.smap(), self.prefix_spec(), self.data.qty) && store_wf(
            self.smap(),
            self.prefix_spec(),
            self.data.qty,
        ));
    }

    /// Returns node `n`, from the cache or decoded from the store, caching
    /// it on a miss. An absent record is a normal signal, not a fault.
    fn cache_get_node(&mut self, n: u64) -> (r: Result<Option<TrieNode>, TrieError>)
        requires
            old(self).cache_ok(),
        ensures
            final(self).store == old(self).store,
            final(self).prefix == old(self).prefix,
            final(self).data == old(self).data,
            final(self).cache_ok(),
            r matches Ok(Some(nd)) ==> node_at(old(self).store@, old(self).prefix@, n) == Some(nd@)
                && nd.wf(),
            r matches Ok(None) ==> !live(old(self).store@, old(self).prefix@, n),
            r is Err ==> live(old(self).store@, old(self).prefix@, n) && node_at(
                old(self).store@,
                old(self).prefix@,
                n,
            ) is None,
            r matches Err(e) ==> e == TrieError::CorruptRecord,
    {
        if let Some(nd) = self.cache.get(&n) {
            let out = nd.clone();
            proof {
                assert(node_at(self.store@, self.prefix@, n) == Some(self.cache@[n]@));
                assert(out@.next.len() == 256);
            }
            return Ok(Some(out));
        }
        let k = node_key(&self.prefix, n);
        match self.store.get(&k) {
            None => Ok(None),
            Some(bytes) => match decode_node(&bytes) {
                Ok(nd) => {
                    let out = nd.clone();
                    self.cache.insert(n, nd);
                    proof {
                        assert forall|x: u64| #[trigger] self.cache@.contains_key(x) implies
                            node_at(self.store@, self.prefix@, x) == Some(self.cache@[x]@) by {
                            if x != n {
                                assert(old(self).cache@.contains_key(x));
                            }
                        }
                    }
                    Ok(Some(out))
                },
                Err(e) => Err(e),
            },
        }
    }

    /// Writes node `n` through: first the store record, then the in-memory
    /// copy; on return both layers hold the new value.
    fn cache_put_node(&mut self, n: u64, nd: &TrieNode)
        requires
            old(self).cache_ok(),
            nd.wf(),
        ensures
            final(self).prefix == old(self).prefix,
            final(self).data == old(self).data,
            final(self).store@ == old(self).store@.insert(
                spec_node_key(old(self).prefix@, n),
                spec_encode_node(nd@),
            ),
            final(self).cache_ok(),
            node_at(final(self).store@, old(self).prefix@, n) == Some(nd@),
            final(self).store.log() == old(self).store.log().push(
                (spec_node_key(old(self).prefix@, n), spec_encode_node(nd@)),
            ),
    {
        let k = node_key(&self.prefix, n);
        let bytes = encode_node(nd);
        self.store.put(k, bytes);
        self.cache.insert(n, nd.clone());
        proof {
            lemma_node_round_trip(nd@);
            assert forall|x: u64| #[trigger] self.cache@.contains_key(x) implies node_at(
                self.store@,
                self.prefix@,
                x,
            ) == Some(self.cache@[x]@) by {
                lemma_keys_disjoint(self.prefix@, x, n);
                if x != n {
                    assert(old(self).cache@.contains_key(x));
                    assert(spec_node_key(self.prefix@, x) != spec_node_key(self.prefix@, n));
                }
            }
        }
    }

    /// Opens an engine over `store` for namespace `prefix`, creating the
    /// root node if the namespace has none. A prefix over the supported
    /// length is a configuration error, rejected before any store access.
    pub fn new(store: Store, prefix: Vec<u8>) -> (r: Result<Trie, TrieError>)
        ensures
            (r matches Err(e) && e == TrieError::NamespaceTooLong) <==> prefix@.len()
                > MAX_NAMESPACE_LEN,
            store_state_wf(store@, prefix@) && prefix@.len() <= MAX_NAMESPACE_LEN ==> r is Ok,
            namespace_clear(store@, prefix@) && prefix@.len() <= MAX_NAMESPACE_LEN ==> r is Ok,
            r matches Ok(t) ==> {
                &&& t.prefix_spec() == prefix@
                &&& forall|k: Seq<u8>|
                    !prefix@.is_prefix_of(k) ==> t.smap().get(k) == store@.get(k)
                &&& (store_state_wf(store@, prefix@) ==> t.wf() && t.smap() == store@
                    && meta_matches(store@, prefix@, t.count()))
                &&& (namespace_clear(store@, prefix@) ==> t.wf() && t.count() == 0 && (forall|
                    k: Seq<u8>,
                |
                    t@[k] == Seq::<Seq<u8>>::empty()) && (forall|k: Seq<u8>|
                    k.len() > 0 ==> (#[trigger] walk_from(t.smap(), prefix@, 0, k)) is None))
            },
    {
        if prefix.len() > MAX_NAMESPACE_LEN {
            return Err(TrieError::NamespaceTooLong);
        }
        let ghost m0 = store@;
        let ghost p = prefix@;
        proof {
            assert(p.subrange(0, p.len() as int) =~= p);
            assert(p.is_prefix_of(p));
        }
        let qty: u64;
        match store.get(&prefix) {
            None => {
                qty = 0;
            },
            Some(b) => {
                if b.len() != 8 {
                    proof {
                        if store_state_wf(m0, p) {
                            let q = choose|q: u64| meta_matches(m0, p, q) && store_wf(m0, p, q);
                            assert(m0[spec_meta_key(p)].len() == 8);
                            assert(false);
                        }
                        if namespace_clear(m0, p) {
                            assert(!m0.contains_key(spec_meta_key(p)));
                            assert(false);
                        }
                    }
                    return Err(TrieError::CorruptRecord);
                }
                qty = u64_from_le_bytes(b.as_slice());
            },
        }
        proof {
            if store_state_wf(m0, p) {
                let q = choose|q: u64| meta_matches(m0, p, q) && store_wf(m0, p, q);
                assert(qty == q);
            }
        }
        let mut t = Trie { store, prefix, data: TrieData { qty }, cache: HashMap::new() };
        match t.cache_get_node(0) {
            Ok(Some(_)) => {
                proof {
                    if store_state_wf(m0, p) {
                        let q = choose|q: u64| meta_matches(m0, p, q) && store_wf(m0, p, q);
                        assert(store_wf(m0, p, qty));
                    }
                    if namespace_clear(m0, p) {
                        lemma_keys_in_namespace(p, 0);
                        assert(!live(m0, p, 0));
                        assert(false);
                    }
                }
                Ok(t)
            },
            Ok(None) => {
                let root = TrieNode::empty(0);
                t.cache_put_node(0, &root);
                proof {
                    lemma_node_round_trip(root@);
                    let m2 = t.store@;
                    assert(m2 == m0.insert(spec_node_key(p, 0), spec_encode_node(root@)));
                    lemma_keys_in_namespace(p, 0);
                    assert forall|k: Seq<u8>| !p.is_prefix_of(k) implies m2.get(k) == m0.get(
                        k,
                    ) by {}
                    if store_state_wf(m0, p) {
                        let q = choose|q: u64| meta_matches(m0, p, q) && store_wf(m0, p, q);
                        assert(live(m0, p, 0));
                        assert(false);
                    }
                    if namespace_clear(m0, p) {
                        assert(node_at(m2, p, 0) == Some(spec_empty_node(0)));
                        assert forall|n: u64| #[trigger] live(m2, p, n) implies n == 0 by {
                            lemma_keys_in_namespace(p, n);
                            lemma_keys_disjoint(p, n, 0);
                            if n != 0 {
                                assert(!m0.contains_key(spec_node_key(p, n)));
                            }
                        }
                        assert forall|n: u64| #[trigger] live(m2, p, n) implies node_ok(m2, p, n)
                            && node_edges_ok(m2, p, 0, node_at(m2, p, n).unwrap()) by {
                            assert(n == 0);
                            assert forall|b2: int| 0 <= b2 < 256 implies edge_ok(
                                m2,
                                p,
                                0,
                                #[trigger] node_at(m2, p, 0).unwrap().next[b2],
                            ) by {
                                assert(spec_empty_node(0).next[b2] is None);
                            }
                        }
                        assert forall|n: u64| n > 0 implies !(#[trigger] live(m2, p, n)) by {
                            lemma_keys_in_namespace(p, n);
                            lemma_keys_disjoint(p, n, 0);
                        }
                        assert forall|n: u64| !m2.contains_key(
                            #[trigger] spec_value_key(p, n),
                        ) by {
                            lemma_keys_in_namespace(p, n);
                            lemma_keys_disjoint(p, n, 0);
                        }
                        let pm = Map::<u64, Seq<u8>>::empty().insert(0, Seq::<u8>::empty());
                        assert(paths_ok(m2, p, pm)) by {
                            assert forall|n: u64, b2: int|
                                node_at(m2, p, n) is Some && 0 <= b2 < 256 implies !((
                                #[trigger] node_at(m2, p, n).unwrap().next[b2]) is Some) by {
                                assert(live(m2, p, n));
                                assert(n == 0);
                                assert(spec_empty_node(0).next[b2] is None);
                            }
                        }
                        assert(store_wf(m2, p, 0));
                        assert(m2.get(spec_meta_key(p)) == m0.get(spec_meta_key(p))) by {
                            lemma_keys_disjoint(p, 0, 0);
                        }
                        assert(!m0.contains_key(spec_meta_key(p)));
                        assert(meta_matches(m2, p, 0));
                        assert forall|k: Seq<u8>| trie_lookup(m2, p, k) == Seq::<Seq<u8>>::empty()
                            by {
                            if k.len() == 0 {
                                assert(walk_from(m2, p, 0, k) == Some(0u64));
                                assert(!m2.contains_key(spec_value_key(p, 0)));
                            } else {
                                assert(node_at(m2, p, 0).unwrap().next[k[0] as int] is None);
                            }
                        }
                        assert forall|k: Seq<u8>|
                            k.len() > 0 implies (#[trigger] walk_from(m2, p, 0, k)) is None by {
                            assert(node_at(m2, p, 0).unwrap().next[k[0] as int] is None);
                        }
                    }
                }
                Ok(t)
            },
            Err(e) => {
                proof {
                    if store_state_wf(m0, p) {
                        let q = choose|q: u64| meta_matches(m0, p, q) && store_wf(m0, p, q);
                        assert(node_ok(m0, p, 0));
                        assert(false);
                    }
                    if namespace_clear(m0, p) {
                        lemma_keys_in_namespace(p, 0);
                        assert(!live(m0, p, 0));
                        assert(false);
                    }
                }
                Err(e)
            },
        }
    }

    /// Number of nodes allocated so far in this namespace, the root aside.
    pub fn node_count(&self) -> (r: u64)
        ensures
            r == self.count(),
    {
        self.data.qty
    }

    /// Hands the backing store back, giving up the engine. The store holds
    /// everything needed to reopen the same index.
    pub fn into_store(self) -> (s: Store)
        ensures
            s@ == self.smap(),
    {
        self.store
    }

    /// Requests durability of the writes issued so far from the backing
    /// store.
    pub fn flush(&self) -> (r: Result<(), TrieError>)
        ensures
            r is Ok,
    {
        self.store.flush()
    }
}

impl Trie {
    /// Inserts `value` under `key`: walks the trie from the root one key
    /// byte at a time, allocating missing nodes along the way (child record
    /// written before the parent edge that references it), persists the
    /// allocation counter, and appends `value` to the final node's value
    /// cell. Every value already stored, under this key and every other, is
    /// preserved.
    pub fn insert(&mut self, key: &Vec<u8>, value: &Vec<u8>) -> (r: Result<(), TrieError>)
        requires
            old(self).wf(),
            old(self).count() + key@.len() <= u32::MAX,
            value@.len() < RECORD_LEN_LIMIT,
        ensures
            r is Ok,
            final(self).wf(),
            final(self).prefix_spec() == old(self).prefix_spec(),
            old(self).count() <= final(self).count() <= old(self).count() + key@.len(),
            final(self)@ == old(self)@.insert(key@, old(self)@[key@].push(value@)),
            final(self)@[key@] == old(self)@[key@].push(value@),
            forall|k: Seq<u8>| k != key@ ==> final(self)@[k] == old(self)@[k],
            forall|k: Seq<u8>|
                !old(self).prefix_spec().is_prefix_of(k) ==> final(self).smap().get(k) == old(
                    self,
                ).smap().get(k),
            final(self).count() == old(self).count() + key@.len() - present_path_len(
                old(self).smap(),
                old(self).prefix_spec(),
                0,
                key@,
            ),
            meta_matches(final(self).smap(), old(self).prefix_spec(), final(self).count()),
            walk_from(final(self).smap(), old(self).prefix_spec(), 0, key@) is Some,
            forall|x: u64|
                Some(x) != walk_from(final(self).smap(), old(self).prefix_spec(), 0, key@)
                    ==> final(self).smap().get(#[trigger] spec_value_key(
                    old(self).prefix_spec(),
                    x,
                )) == old(self).smap().get(spec_value_key(old(self).prefix_spec(), x)),
            forall|x: u64|
                node_extends(
                    node_at(old(self).smap(), old(self).prefix_spec(), x),
                    #[trigger] node_at(final(self).smap(), old(self).prefix_spec(), x),
                ),
            forall|k: Seq<u8>|
                (#[trigger] walk_from(final(self).smap(), old(self).prefix_spec(), 0, k)) is Some
                    ==> walk_from(old(self).smap(), old(self).prefix_spec(), 0, k) is Some
                    || k.is_prefix_of(key@),
            forall|k: Seq<u8>|
                (#[trigger] walk_from(old(self).smap(), old(self).prefix_spec(), 0, k)) is Some
                    ==> walk_from(final(self).smap(), old(self).prefix_spec(), 0, k) == walk_from(
                    old(self).smap(),
                    old(self).prefix_spec(),
                    0,
                    k,
                ),
            old(self).log().is_prefix_of(final(self).log()),
            final(self).log().len() > old(self).log().len(),
            apply_log(
                old(self).smap(),
                final(self).log().skip(old(self).log().len() as int),
            ) == final(self).smap(),
            forall|j: int|
                0 <= j <= final(self).log().len() - old(self).log().len() ==> edges_closed(
                    apply_log(
                        old(self).smap(),
                        final(self).log().skip(old(self).log().len() as int).take(j),
                    ),
                    old(self).prefix_spec(),
                ),
    {
        let ghost m0 = self.store@;
        let ghost p = self.prefix@;
        let ghost qty0 = self.data.qty;
        let ghost g_p = present_path_len(self.store@, self.prefix@, 0, key@);
        let ghost log0 = self.store.log();
        let mut n: u64 = 0;
        let mut i: usize = 0;
        proof {
            assert(key@.take(0) =~= Seq::<u8>::empty());
            lemma_present_path_walk(m0, p, 0, key@, 0);
            assert forall|x: u64| node_extends(
                node_at(m0, p, x),
                #[trigger] node_at(self.store@, p, x),
            ) by {
                lemma_node_extends_refl(node_at(m0, p, x));
            }
            assert(log0 =~= log0.subrange(0, log0.len() as int));
            assert(log0.is_prefix_of(self.store.log()));
            assert(self.store.log().skip(log0.len() as int) =~= Seq::<(Seq<u8>, Seq<u8>)>::empty());
            lemma_store_wf_edges_closed(m0, p, qty0);
            assert forall|j: int|
                0 <= j <= self.store.log().len() - log0.len() implies edges_closed(
                apply_log(m0, self.store.log().skip(log0.len() as int).take(j)),
                p,
            ) by {
                assert(self.store.log().skip(log0.len() as int).take(j) =~= Seq::<(
                    Seq<u8>,
                    Seq<u8>,
                )>::empty());
            }
        }
        while i < key.len()
            invariant
                old(self).wf(),
                value@.len() < RECORD_LEN_LIMIT,
                m0 == old(self).store@,
                p == old(self).prefix@,
                qty0 == old(self).data.qty,
                qty0 + key@.len() <= u32::MAX,
                i <= key@.len(),
                self.prefix@ == p,
                self.prefix@.len() <= MAX_NAMESPACE_LEN,
                qty0 <= self.data.qty <= qty0 + i,
                self.data.qty + (key@.len() - i) <= u32::MAX,
                store_wf(self.store@, p, self.data.qty),
                self.cache_ok(),
                n <= self.data.qty,
                node_ok(self.store@, p, n),
                walk_from(self.store@, p, 0, key@.take(i as int)) == Some(n),
                self.store@.get(spec_meta_key(p)) == m0.get(spec_meta_key(p)),
                forall|x: u64|
                    self.store@.get(#[trigger] spec_value_key(p, x)) == m0.get(
                        spec_value_key(p, x),
                    ),
                forall|k: Seq<u8>|
                    #[trigger] trie_lookup(self.store@, p, k) == trie_lookup(m0, p, k),
                forall|k: Seq<u8>| !p.is_prefix_of(k) ==> self.store@.get(k) == m0.get(k),
                g_p == present_path_len(m0, p, 0, key@),
                g_p <= key@.len(),
                i <= g_p ==> self.store@ == m0 && self.data.qty == qty0,
                i > g_p ==> self.data.qty == qty0 + i - g_p,
                i > g_p ==> node_at(self.store@, p, n) == Some(spec_empty_node(key@[i - 1])),
                forall|x: u64|
                    node_extends(node_at(m0, p, x), #[trigger] node_at(self.store@, p, x)),
                forall|k: Seq<u8>|
                    (#[trigger] walk_from(self.store@, p, 0, k)) is Some ==> walk_from(
                        m0,
                        p,
                        0,
                        k,
                    ) is Some || k.is_prefix_of(key@.take(i as int)),
                forall|k: Seq<u8>|
                    (#[trigger] walk_from(m0, p, 0, k)) is Some ==> walk_from(self.store@, p, 0, k)
                        == walk_from(m0, p, 0, k),
                log0 == old(self).store.log(),
                log0.is_prefix_of(self.store.log()),
                apply_log(m0, self.store.log().skip(log0.len() as int)) == self.store@,
                forall|j: int|
                    0 <= j <= self.store.log().len() - log0.len() ==> edges_closed(
                        apply_log(m0, self.store.log().skip(log0.len() as int).take(j)),
                        p,
                    ),
            decreases key@.len() - i,
        {
            let byte = key[i];
            let ghost m_pre = self.store@;
            let ghost log_pre = self.store.log();
            let cur = match self.cache_get_node(n) {
                Ok(Some(nd)) => nd,
                Ok(None) => {
                    proof {
                        assert(false);
                    }
                    return Err(TrieError::CorruptRecord);
                },
                Err(e) => {
                    proof {
                        assert(false);
                    }
                    return Err(e);
                },
            };
            match cur.next[byte as usize] {
                Some(next_idx) => {
                    proof {
                        assert(live(m_pre, p, n));
                        assert(node_edges_ok(m_pre, p, self.data.qty, cur@));
                        assert(edge_ok(m_pre, p, self.data.qty, cur@.next[byte as int]));
                        lemma_walk_append(m_pre, p, 0, key@.take(i as int), seq![byte]);
                        assert(key@.take(i as int) + seq![byte] =~= key@.take(i as int + 1));
                        assert(walk_from(m_pre, p, next_idx as u64, Seq::<u8>::empty())
                            == Some(next_idx as u64));
                        assert(seq![byte].drop_first() =~= Seq::<u8>::empty());
                        assert(walk_from(m_pre, p, n, seq![byte]) == Some(next_idx as u64));
                        // the edge was already there, so the walkable prefix goes on
                        if i > g_p {
                            assert(node_at(m_pre, p, n) == Some(spec_empty_node(
                                key@[i as int - 1],
                            )));
                            assert(spec_empty_node(key@[i as int - 1]).next[byte as int] is None);
                            assert(false);
                        }
                        assert(m_pre == m0);
                        lemma_present_path_walk(m0, p, 0, key@, i as int + 1);
                        assert(i + 1 <= g_p);
                    }
                    n = next_idx as u64;
                },
                None => {
                    let ghost qty_pre = self.data.qty;
                    let mnew: u64 = self.data.qty + 1;
                    self.data.qty = mnew;
                    let child = TrieNode::empty(byte);
                    self.cache_put_node(mnew, &child);
                    let mut parent = cur;
                    parent.next[byte as usize] = Some(mnew as u32);
                    proof {
                        assert(parent@ =~= NodeV {
                            value: cur@.value,
                            next: cur@.next.update(byte as int, Some((qty_pre + 1) as u32)),
                        });
                    }
                    self.cache_put_node(n, &parent);
                    proof {
                        lemma_node_round_trip(child@);
                        lemma_node_round_trip(parent@);
                        let m2 = self.store@;
                        assert(m2 == m_pre.insert(
                            spec_node_key(p, mnew),
                            spec_encode_node(child@),
                        ).insert(spec_node_key(p, n), spec_encode_node(parent@)));
                        lemma_alloc_update(
                            m_pre,
                            p,
                            qty_pre,
                            n,
                            byte,
                            spec_encode_node(child@),
                            spec_encode_node(parent@),
                            key@.take(i as int),
                        );
                        assert(store_wf(m2, p, mnew));
                        // the walk done so far still holds, and extends to the child
                        assert(walk_from(m2, p, 0, key@.take(i as int)) == Some(n));
                        lemma_walk_append(m2, p, 0, key@.take(i as int), seq![byte]);
                        assert(key@.take(i as int) + seq![byte] =~= key@.take(i as int + 1));
                        assert(node_at(m2, p, n).unwrap().next[byte as int] == Some(
                            (qty_pre + 1) as u32,
                        ));
                        assert(seq![byte].drop_first() =~= Seq::<u8>::empty());
                        assert(qty_pre + 1 <= u32::MAX);
                        assert(((qty_pre + 1) as u32) as u64 == mnew);
                        assert(seq![byte][0] == byte);
                        assert(seq![byte].len() == 1);
                        assert(walk_from(m2, p, mnew, seq![byte].drop_first()) == Some(mnew));
                        assert(walk_from(m2, p, n, seq![byte]) == Some(mnew));
                        assert(walk_from(m2, p, 0, key@.take(i as int + 1)) == Some(mnew));
                        // values and metadata untouched, lookups preserved
                        assert forall|k: Seq<u8>| #[trigger] trie_lookup(m2, p, k)
                            == trie_lookup(m0, p, k) by {
                            assert(trie_lookup(m2, p, k) == trie_lookup(m_pre, p, k));
                        }
                        // a missing edge means the walkable prefix ended here
                        if i < g_p {
                            assert(m_pre == m0);
                            lemma_present_path_walk(m0, p, 0, key@, i as int + 1);
                            lemma_walk_append(m0, p, 0, key@.take(i as int), seq![byte]);
                            assert(key@.take(i as int) + seq![byte] =~= key@.take(i as int + 1));
                            assert(seq![byte][0] == byte);
                            assert(walk_from(m0, p, n, seq![byte]) is None);
                            assert(false);
                        }
                        assert(self.data.qty == qty0 + (i + 1) - g_p);
                        // every stored node only grew
                        assert forall|x: u64| node_extends(
                            node_at(m0, p, x),
                            #[trigger] node_at(m2, p, x),
                        ) by {
                            let a = node_at(m0, p, x);
                            let mid = node_at(m_pre, p, x);
                            let c = node_at(m2, p, x);
                            if x == n {
                                assert(mid == Some(cur@));
                                assert(node_extends(mid, c));
                            } else if x == mnew {
                                assert(!live(m_pre, p, mnew));
                                assert(mid is None);
                            } else {
                                lemma_keys_disjoint(p, x, mnew);
                                lemma_keys_disjoint(p, x, n);
                                assert(c == mid);
                                lemma_node_extends_refl(mid);
                            }
                            lemma_node_extends_trans(a, mid, c);
                        }
                        // walks that already succeeded stay put
                        assert forall|k: Seq<u8>|
                            (#[trigger] walk_from(m0, p, 0, k)) is Some implies walk_from(
                            m2,
                            p,
                            0,
                            k,
                        ) == walk_from(m0, p, 0, k) by {
                            assert(walk_from(m_pre, p, 0, k) == walk_from(m0, p, 0, k));
                        }
                        // walks extend only along the inserted key
                        assert forall|k: Seq<u8>|
                            (#[trigger] walk_from(m2, p, 0, k)) is Some implies walk_from(
                            m0,
                            p,
                            0,
                            k,
                        ) is Some || k.is_prefix_of(key@.take(i as int + 1)) by {
                            let y = walk_from(m2, p, 0, k).unwrap();
                            if y == mnew {
                                assert(k == key@.take(i as int).push(byte));
                                assert(k =~= key@.take(i as int + 1));
                                assert(k.is_prefix_of(k));
                            } else {
                                assert(walk_from(m_pre, p, 0, k) is Some);
                                if !(walk_from(m0, p, 0, k) is Some) {
                                    assert(k.is_prefix_of(key@.take(i as int)));
                                    assert(key@.take(i as int).is_prefix_of(
                                        key@.take(i as int + 1),
                                    )) by {
                                        assert(key@.take(i as int) =~= key@.take(
                                            i as int + 1,
                                        ).subrange(0, i as int));
                                    }
                                    assert(k =~= key@.take(i as int + 1).subrange(
                                        0,
                                        k.len() as int,
                                    ));
                                }
                            }
                        }
                        // the write log gained the child record, then the parent
                        let ck = spec_node_key(p, mnew);
                        let cb = spec_encode_node(child@);
                        let pk = spec_node_key(p, n);
                        let pb = spec_encode_node(parent@);
                        let m_mid = m_pre.insert(ck, cb);
                        let log_mid = log_pre.push((ck, cb));
                        assert(self.store.log() == log_mid.push((pk, pb)));
                        assert(node_at(m_mid, p, mnew) == Some(spec_empty_node(byte)));
                        assert(edges_closed(m_mid, p)) by {
                            lemma_store_wf_edges_closed(m_pre, p, qty_pre);
                            assert forall|x: u64, b2: int|
                                node_at(m_mid, p, x) is Some && 0 <= b2 < 256 implies
                                edge_target_live(
                                m_mid,
                                p,
                                #[trigger] node_at(m_mid, p, x).unwrap().next[b2],
                            ) by {
                                lemma_keys_disjoint(p, x, mnew);
                                if x == mnew {
                                    assert(spec_empty_node(byte).next[b2] is None);
                                } else {
                                    assert(node_at(m_mid, p, x) == node_at(m_pre, p, x));
                                    assert(edge_target_live(
                                        m_pre,
                                        p,
                                        node_at(m_pre, p, x).unwrap().next[b2],
                                    ));
                                    match node_at(m_pre, p, x).unwrap().next[b2] {
                                        None => {},
                                        Some(t) => {
                                            lemma_keys_disjoint(p, t as u64, mnew);
                                            assert(live(m_mid, p, t as u64));
                                        },
                                    }
                                }
                            }
                        }
                        lemma_log_step(m0, log0, log_pre, m_pre, ck, cb, p);
                        lemma_store_wf_edges_closed(m2, p, mnew);
                        lemma_log_step(m0, log0, log_mid, m_mid, pk, pb, p);
                    }
                    n = mnew;
                },
            };
            i += 1;
        }
        proof {
            assert(key@.take(key@.len() as int) =~= key@);
        }
        let ghost m_walked = self.store@;
        let ghost qty_new = self.data.qty;
        let ghost log_w = self.store.log();
        // persist the updated allocation counter
        let mk = meta_key(&self.prefix);
        let mb = u64_to_le_bytes(self.data.qty);
        self.store.put(mk, mb);
        proof {
            lemma_auto_spec_u64_to_from_le_bytes();
            let m3 = self.store@;
            assert forall|x: u64| #[trigger] spec_node_key(p, x) != spec_meta_key(p) by {
                lemma_keys_disjoint(p, x, x);
            }
            assert forall|x: u64| #[trigger] spec_value_key(p, x) != spec_meta_key(p) by {
                lemma_keys_disjoint(p, x, x);
            }
            lemma_store_wf_insert_other(
                m_walked,
                p,
                qty_new,
                spec_meta_key(p),
                spec_u64_to_le_bytes(qty_new),
            );
            assert(store_wf(m3, p, qty_new));
            assert(meta_matches(m3, p, qty_new));
            lemma_walk_insert_other(
                m_walked,
                p,
                spec_meta_key(p),
                spec_u64_to_le_bytes(qty_new),
                0,
                key@,
            );
            assert(walk_from(m3, p, 0, key@) == Some(n));
            // the cache still agrees: no node key was touched
            assert forall|x: u64| #[trigger] self.cache@.contains_key(x) implies node_at(
                m3,
                p,
                x,
            ) == Some(self.cache@[x]@) by {
                assert(node_at(m3, p, x) == node_at(m_walked, p, x));
            }
            lemma_keys_in_namespace(p, 0);
            assert forall|x: u64| node_extends(
                node_at(m0, p, x),
                #[trigger] node_at(m3, p, x),
            ) by {
                assert(node_at(m3, p, x) == node_at(m_walked, p, x));
            }
            assert(self.store.log() == log_w.push(
                (spec_meta_key(p), spec_u64_to_le_bytes(qty_new)),
            ));
            lemma_store_wf_edges_closed(m3, p, qty_new);
            lemma_log_step(
                m0,
                log0,
                log_w,
                m_walked,
                spec_meta_key(p),
                spec_u64_to_le_bytes(qty_new),
                p,
            );
        }
        let ghost m3 = self.store@;
        // append the value to the final node's cell
        let vk = value_key(&self.prefix, n);
        let mut cell = match self.store.get(&vk) {
            Some(bytes) => bytes,
            None => Vec::new(),
        };
        let ghost vs = choose|vs: Seq<Seq<u8>>|
            all_records_fit(vs) && cell@ == spec_encode_values(vs);
        proof {
            if m3.contains_key(spec_value_key(p, n)) {
                assert(cell_wf(m3[spec_value_key(p, n)]));
            } else {
                assert(cell@ =~= Seq::<u8>::empty());
                let e = Seq::<Seq<u8>>::empty();
                assert(all_records_fit(e) && cell@ == spec_encode_values(e));
            }
            assert(all_records_fit(vs) && cell@ == spec_encode_values(vs));
            lemma_values_round_trip(vs);
            assert(cell_values(m3, p, n) == vs);
            assert(trie_lookup(m3, p, key@) == vs);
        }
        append_record(&mut cell, value);
        self.store.put(vk, cell);
        proof {
            let m4 = self.store@;
            lemma_encode_values_snoc(vs, value@);
            assert(m4[spec_value_key(p, n)] == spec_encode_values(vs.push(value@)));
            assert(all_records_fit(vs.push(value@))) by {
                assert(forall|j: int|
                    0 <= j < vs.len() ==> vs.push(value@)[j] == vs[j]);
            }
            lemma_values_round_trip(vs.push(value@));
            assert forall|x: u64| #[trigger] spec_node_key(p, x) != spec_value_key(p, n) by {
                lemma_keys_disjoint(p, n, x);
            }
            lemma_walk_insert_other(
                m3,
                p,
                spec_value_key(p, n),
                spec_encode_values(vs.push(value@)),
                0,
                key@,
            );
            assert(walk_from(m4, p, 0, key@) == Some(n));
            assert(cell_values(m4, p, n) == vs.push(value@));
            assert(trie_lookup(m4, p, key@) == vs.push(value@));
            // soundness for the new cell
            assert forall|x: u64| m4.contains_key(#[trigger] spec_value_key(p, x)) implies
                cell_wf(m4[spec_value_key(p, x)]) by {
                lemma_keys_disjoint(p, x, n);
                if spec_value_key(p, x) != spec_value_key(p, n) {
                    assert(m3.contains_key(spec_value_key(p, x)));
                } else {
                    assert(all_records_fit(vs.push(value@)) && m4[spec_value_key(p, x)]
                        == spec_encode_values(vs.push(value@)));
                }
            }
            assert forall|x: u64| x > qty_new implies !m4.contains_key(
                #[trigger] spec_value_key(p, x),
            ) by {
                lemma_keys_disjoint(p, x, n);
                assert(x != n);
            }
            assert forall|x: u64| #[trigger] live(m4, p, x) == live(m3, p, x) && node_at(
                m4,
                p,
                x,
            ) == node_at(m3, p, x) by {
                lemma_keys_disjoint(p, n, x);
            }
            assert forall|x: u64| #[trigger] live(m4, p, x) implies node_ok(m4, p, x)
                && node_edges_ok(m4, p, qty_new, node_at(m4, p, x).unwrap()) by {
                assert(live(m3, p, x));
                let nd = node_at(m3, p, x).unwrap();
                assert(node_edges_ok(m3, p, qty_new, nd));
                assert forall|b2: int| 0 <= b2 < 256 implies edge_ok(
                    m4,
                    p,
                    qty_new,
                    #[trigger] nd.next[b2],
                ) by {
                    assert(edge_ok(m3, p, qty_new, nd.next[b2]));
                }
            }
            let pm3 = choose|pm: Map<u64, Seq<u8>>| paths_ok(m3, p, pm);
            assert(paths_ok(m4, p, pm3)) by {
                assert forall|x: u64| #[trigger] live(m4, p, x) implies pm3.contains_key(x) by {
                    assert(live(m3, p, x));
                }
                assert forall|x: u64, b2: int|
                    node_at(m4, p, x) is Some && 0 <= b2 < 256 && (#[trigger] node_at(
                        m4,
                        p,
                        x,
                    ).unwrap().next[b2]) is Some implies {
                    let i2 = node_at(m4, p, x).unwrap().next[b2].unwrap() as u64;
                    pm3.contains_key(i2) && pm3[i2] == pm3[x].push(b2 as u8)
                } by {
                    lemma_keys_disjoint(p, n, x);
                    assert(node_at(m4, p, x) == node_at(m3, p, x));
                }
            }
            assert(store_wf(m4, p, qty_new));
            assert(meta_matches(m4, p, qty_new)) by {
                lemma_keys_disjoint(p, n, n);
            }
            assert forall|x: u64| #[trigger] self.cache@.contains_key(x) implies node_at(
                m4,
                p,
                x,
            ) == Some(self.cache@[x]@) by {
                assert(node_at(m4, p, x) == node_at(m3, p, x));
            }
            // the one key gains the value; every other key keeps its values
            assert forall|k: Seq<u8>| k != key@ implies #[trigger] trie_lookup(m4, p, k)
                == trie_lookup(m3, p, k) by {
                lemma_walk_insert_other(
                    m3,
                    p,
                    spec_value_key(p, n),
                    spec_encode_values(vs.push(value@)),
                    0,
                    k,
                );
                match walk_from(m3, p, 0, k) {
                    None => {},
                    Some(y) => {
                        if y == n {
                            lemma_walk_injective(m3, p, qty_new, k, key@);
                            assert(false);
                        }
                        lemma_keys_disjoint(p, y, n);
                        assert(m4.get(spec_value_key(p, y)) == m3.get(spec_value_key(p, y)));
                    },
                }
            }
            assert(trie_lookup(m3, p, key@) == trie_lookup(m_walked, p, key@));
            assert(trie_lookup(m_walked, p, key@) == trie_lookup(m0, p, key@));
            assert(trie_lookup(m3, p, key@) == trie_lookup(m0, p, key@));
            assert(old(self)@[key@] == trie_lookup(m0, p, key@));
            assert(self@ =~= old(self)@.insert(key@, old(self)@[key@].push(value@))) by {
                assert forall|k: Seq<u8>| #[trigger] trie_lookup(m4, p, k) == old(self)@.insert(
                    key@,
                    old(self)@[key@].push(value@),
                )[k] by {
                    if k == key@ {
                        assert(trie_lookup(m4, p, key@) == vs.push(value@));
                    } else {
                        assert(trie_lookup(m4, p, k) == trie_lookup(m3, p, k));
                        assert(trie_lookup(m3, p, k) == trie_lookup(m_walked, p, k));
                        assert(trie_lookup(m_walked, p, k) == trie_lookup(m0, p, k));
                    }
                }
            }
            // nothing outside the namespace was touched
            assert forall|k: Seq<u8>| !p.is_prefix_of(k) implies m4.get(k) == m0.get(k) by {
                lemma_keys_in_namespace(p, n);
                assert(m3.get(k) == m0.get(k));
            }
            // exactly one node per missing path byte was allocated
            assert(qty_new == qty0 + key@.len() - g_p);
            // no other value cell was written
            assert forall|x: u64|
                Some(x) != walk_from(m4, p, 0, key@) implies m4.get(#[trigger] spec_value_key(
                p,
                x,
            )) == m0.get(spec_value_key(p, x)) by {
                assert(x != n);
                lemma_keys_disjoint(p, x, n);
                lemma_keys_disjoint(p, x, x);
                assert(m3.get(spec_value_key(p, x)) == m_walked.get(spec_value_key(p, x)));
            }
            // stored nodes only grew
            assert forall|x: u64| node_extends(
                node_at(m0, p, x),
                #[trigger] node_at(m4, p, x),
            ) by {
                assert(node_at(m4, p, x) == node_at(m3, p, x));
            }
            // the value put closes the write log of this operation
            let log3 = log_w.push((spec_meta_key(p), spec_u64_to_le_bytes(qty_new)));
            assert(self.store.log() == log3.push(
                (spec_value_key(p, n), spec_encode_values(vs.push(value@))),
            ));
            lemma_store_wf_edges_closed(m4, p, qty_new);
            lemma_log_step(
                m0,
                log0,
                log3,
                m3,
                spec_value_key(p, n),
                spec_encode_values(vs.push(value@)),
                p,
            );
            assert(log0.len() <= log_w.len());
            assert(self.store.log().len() > log0.len());
            assert forall|k: Seq<u8>|
                (#[trigger] walk_from(m0, p, 0, k)) is Some implies walk_from(m4, p, 0, k)
                == walk_from(m0, p, 0, k) by {
                lemma_walk_insert_other(
                    m3,
                    p,
                    spec_value_key(p, n),
                    spec_encode_values(vs.push(value@)),
                    0,
                    k,
                );
                lemma_walk_insert_other(
                    m_walked,
                    p,
                    spec_meta_key(p),
                    spec_u64_to_le_bytes(qty_new),
                    0,
                    k,
                );
            }
            assert forall|k: Seq<u8>|
                (#[trigger] walk_from(m4, p, 0, k)) is Some implies walk_from(
                m0,
                p,
                0,
                k,
            ) is Some || k.is_prefix_of(key@) by {
                lemma_walk_insert_other(
                    m3,
                    p,
                    spec_value_key(p, n),
                    spec_encode_values(vs.push(value@)),
                    0,
                    k,
                );
                lemma_walk_insert_other(
                    m_walked,
                    p,
                    spec_meta_key(p),
                    spec_u64_to_le_bytes(qty_new),
                    0,
                    k,
                );
                assert(key@.take(key@.len() as int) =~= key@);
            }
        }
        Ok(())
    }
}

impl Trie {
    /// Looks up every value previously inserted under exactly `key`, in
    /// insertion order. A missing edge at any position means the key was
    /// never inserted: the result is empty, a normal outcome, not an error.
    pub fn get(&mut self, key: &Vec<u8>) -> (r: Result<Items, TrieError>)
        requires
            old(self).wf(),
        ensures
            r is Ok,
            final(self).wf(),
            final(self).smap() == old(self).smap(),
            final(self).prefix_spec() == old(self).prefix_spec(),
            final(self).count() == old(self).count(),
            final(self)@ == old(self)@,
            r matches Ok(items) ==> items@ == old(self)@[key@],
    {
        let ghost m0 = self.store@;
        let ghost p = self.prefix@;
        let mut n: u64 = 0;
        let mut i: usize = 0;
        proof {
            assert(key@.take(0) =~= Seq::<u8>::empty());
        }
        while i < key.len()
            invariant
                old(self).wf(),
                m0 == old(self).store@,
                p == old(self).prefix@,
                i <= key@.len(),
                self.store@ == m0,
                self.prefix@ == p,
                self.data == old(self).data,
                self.cache_ok(),
                n <= self.data.qty,
                node_ok(m0, p, n),
                walk_from(m0, p, 0, key@.take(i as int)) == Some(n),
            decreases key@.len() - i,
        {
            let byte = key[i];
            let cur = match self.cache_get_node(n) {
                Ok(Some(nd)) => nd,
                Ok(None) => {
                    proof {
                        assert(false);
                    }
                    return Err(TrieError::CorruptRecord);
                },
                Err(e) => {
                    proof {
                        assert(false);
                    }
                    return Err(e);
                },
            };
            match cur.next[byte as usize] {
                Some(next_idx) => {
                    proof {
                        assert(live(m0, p, n));
                        assert(node_edges_ok(m0, p, self.data.qty, cur@));
                        assert(edge_ok(m0, p, self.data.qty, cur@.next[byte as int]));
                        lemma_walk_append(m0, p, 0, key@.take(i as int), seq![byte]);
                        assert(key@.take(i as int) + seq![byte] =~= key@.take(i as int + 1));
                        assert(seq![byte][0] == byte);
                        assert(seq![byte].drop_first() =~= Seq::<u8>::empty());
                        assert(walk_from(m0, p, next_idx as u64, Seq::<u8>::empty()) == Some(
                            next_idx as u64,
                        ));
                        assert(walk_from(m0, p, n, seq![byte]) == Some(next_idx as u64));
                    }
                    n = next_idx as u64;
                },
                None => {
                    proof {
                        lemma_walk_append(m0, p, 0, key@.take(i as int), key@.skip(i as int));
                        assert(key@.take(i as int) + key@.skip(i as int) =~= key@);
                        assert(key@.skip(i as int)[0] == byte);
                        assert(walk_from(m0, p, n, key@.skip(i as int)) is None);
                        assert(walk_from(m0, p, 0, key@) is None);
                        assert(trie_lookup(m0, p, key@) =~= Seq::<Seq<u8>>::empty());
                    }
                    let out = Items::from_records(Vec::new());
                    proof {
                        assert(out@ =~= Seq::<Seq<u8>>::empty());
                    }
                    return Ok(out);
                },
            };
            i += 1;
        }
        proof {
            assert(key@.take(key@.len() as int) =~= key@);
        }
        let vk = value_key(&self.prefix, n);
        let cell = match self.store.get(&vk) {
            Some(bytes) => bytes,
            None => Vec::new(),
        };
        proof {
            if m0.contains_key(spec_value_key(p, n)) {
                assert(cell@ == m0[spec_value_key(p, n)]);
            } else {
                assert(cell@ =~= Seq::<u8>::empty());
                assert(spec_decode_values(cell@) =~= Seq::<Seq<u8>>::empty());
            }
            assert(spec_decode_values(cell@) == cell_values(m0, p, n));
            assert(trie_lookup(m0, p, key@) == cell_values(m0, p, n));
        }
        let records = decode_values(&cell);
        Ok(Items::from_records(records))
    }
}

/// A key of one namespace never lies in another namespace whose prefix is
/// neither an extension nor a truncation of the first.
proof fn lemma_foreign_prefix(pa: Seq<u8>, pb: Seq<u8>, k: Seq<u8>)
    requires
        !pa.is_prefix_of(pb),
        !pb.is_prefix_of(pa),
        pb.is_prefix_of(k),
    ensures
        !pa.is_prefix_of(k),
{
    if pa.is_prefix_of(k) {
        if pa.len() <= pb.len() {
            assert forall|j: int| 0 <= j < pa.len() implies pa[j] == pb[j] by {
                assert(pa[j] == k.subrange(0, pa.len() as int)[j]);
                assert(pb[j] == k.subrange(0, pb.len() as int)[j]);
            }
            assert(pa =~= pb.subrange(0, pa.len() as int));
            assert(pa.is_prefix_of(pb));
        } else {
            assert forall|j: int| 0 <= j < pb.len() implies pb[j] == pa[j] by {
                assert(pa[j] == k.subrange(0, pa.len() as int)[j]);
                assert(pb[j] == k.subrange(0, pb.len() as int)[j]);
            }
            assert(pb =~= pa.subrange(0, pb.len() as int));
            assert(pb.is_prefix_of(pa));
        }
    }
}

/// Persistence: the index is a function of the store contents and the
/// namespace prefix alone, so an engine closed and reopened over the same
/// store contents — or any two engines over equal contents — reproduces
/// every lookup.
pub proof fn lemma_persistence(t1: Trie, t2: Trie)
    requires
        t1.smap() == t2.smap(),
        t1.prefix_spec() == t2.prefix_spec(),
    ensures
        t1@ == t2@,
{
    t1.lemma_view_is_lookup();
    t2.lemma_view_is_lookup();
}

/// Namespace isolation: when neither prefix extends the other, writes that
/// stay inside one namespace — as every engine write does — change nothing
/// that the other namespace's lookups can observe.
pub proof fn lemma_namespace_isolation(
    m1: Map<Seq<u8>, Seq<u8>>,
    m2: Map<Seq<u8>, Seq<u8>>,
    pa: Seq<u8>,
    pb: Seq<u8>,
)
    requires
        !pa.is_prefix_of(pb),
        !pb.is_prefix_of(pa),
        forall|k: Seq<u8>| !pa.is_prefix_of(k) ==> m1.get(k) == m2.get(k),
    ensures
        forall|key: Seq<u8>|
            #[trigger] trie_lookup(m1, pb, key) == trie_lookup(m2, pb, key),
        trie_views(m1, pb) == trie_views(m2, pb),
{
    assert forall|x: u64| m1.get(#[trigger] spec_node_key(pb, x)) == m2.get(
        spec_node_key(pb, x),
    ) by {
        lemma_keys_in_namespace(pb, x);
        lemma_foreign_prefix(pa, pb, spec_node_key(pb, x));
    }
    assert forall|x: u64| m1.get(#[trigger] spec_value_key(pb, x)) == m2.get(
        spec_value_key(pb, x),
    ) by {
        lemma_keys_in_namespace(pb, x);
        lemma_foreign_prefix(pa, pb, spec_value_key(pb, x));
    }
    assert forall|key: Seq<u8>| #[trigger] trie_lookup(m1, pb, key) == trie_lookup(
        m2,
        pb,
        key,
    ) by {
        lemma_walk_same_nodes(m1, m2, pb, 0, key);
        match walk_from(m1, pb, 0, key) {
            None => {},
            Some(y) => {
                assert(m1.get(spec_value_key(pb, y)) == m2.get(spec_value_key(pb, y)));
            },
        }
    }
    assert(trie_views(m1, pb) =~= trie_views(m2, pb));
}

impl Trie {
    /// Hands out the store puts issued since the last drain, oldest first,
    /// so an outer layer can replay them into a durable store. Draining the
    /// log changes nothing the index can observe.
    pub fn take_writes(&mut self) -> (w: Vec<(Vec<u8>, Vec<u8>)>)
        ensures
            final(self).smap() == old(self).smap(),
            final(self).prefix_spec() == old(self).prefix_spec(),
            final(self).count() == old(self).count(),
            final(self)@ == old(self)@,
            old(self).wf() ==> final(self).wf(),
            final(self).log() == Seq::<(Seq<u8>, Seq<u8>)>::empty(),
            w@.len() == old(self).log().len(),
            forall|i: int|
                0 <= i < w@.len() ==> (#[trigger] w@[i].0@, w@[i].1@) == old(self).log()[i],
    {
        self.store.take_writes()
    }
}
/// A sound stored trie has no dangling edge.
pub proof fn lemma_store_wf_edges_closed(
    m: Map<Seq<u8>, Seq<u8>>,
    p: Seq<u8>,
    qty: u64,
)
    requires
        store_wf(m, p, qty),
    ensures
        edges_closed(m, p),
{
    assert forall|x: u64, b: int|
        node_at(m, p, x) is Some && 0 <= b < 256 implies edge_target_live(
        m,
        p,
        #[trigger] node_at(m, p, x).unwrap().next[b],
    ) by {
        assert(live(m, p, x));
        assert(node_edges_ok(m, p, qty, node_at(m, p, x).unwrap()));
        assert(edge_ok(m, p, qty, node_at(m, p, x).unwrap().next[b]));
    }
}

broadcast use vstd::std_specs::hash::group_hash_axioms;

/// Namespace metadata: how many nodes have been allocated. The root is
/// created outside the counter; indices are handed out as `qty + 1` and
/// never reused.
#[derive(Debug, Clone, Copy)]
pub struct TrieData {
    /// Number of non-root nodes allocated so far.
    pub qty: u64,
}


/// One put during an operation: the log gains the entry, replaying the log
/// still yields the store, and every replay prefix stays free of dangling
/// edges provided the new whole store is.
proof fn lemma_log_step(
    m0: Map<Seq<u8>, Seq<u8>>,
    log0: Seq<(Seq<u8>, Seq<u8>)>,
    old_log: Seq<(Seq<u8>, Seq<u8>)>,
    old_m: Map<Seq<u8>, Seq<u8>>,
    k0: Seq<u8>,
    v0: Seq<u8>,
    p: Seq<u8>,
)
    requires
        log0.is_prefix_of(old_log),
        apply_log(m0, old_log.skip(log0.len() as int)) == old_m,
        forall|j: int|
            0 <= j <= old_log.len() - log0.len() ==> edges_closed(
                apply_log(m0, old_log.skip(log0.len() as int).take(j)),
                p,
            ),
        edges_closed(old_m.insert(k0, v0), p),
    ensures
        log0.is_prefix_of(old_log.push((k0, v0))),
        apply_log(m0, old_log.push((k0, v0)).skip(log0.len() as int)) == old_m.insert(k0, v0),
        forall|j: int|
            0 <= j <= old_log.len() + 1 - log0.len() ==> edges_closed(
                apply_log(m0, old_log.push((k0, v0)).skip(log0.len() as int).take(j)),
                p,
            ),
{
    let l0 = log0.len() as int;
    let new_log = old_log.push((k0, v0));
    let os = old_log.skip(l0);
    let ns = new_log.skip(l0);
    assert(log0 =~= new_log.subrange(0, l0));
    assert(ns =~= os.push((k0, v0)));
    assert(ns.drop_last() =~= os);
    assert(ns.last() == (k0, v0));
    assert(apply_log(m0, ns) == apply_log(m0, os).insert(k0, v0));
    assert forall|j: int| 0 <= j <= ns.len() implies edges_closed(
        apply_log(m0, ns.take(j)),
        p,
    ) by {
        if j <= os.len() {
            assert(ns.take(j) =~= os.take(j));
        } else {
            assert(ns.take(j) =~= ns);
        }
    }
}

/// Growing is reflexive.
proof fn lemma_node_extends_refl(a: Option<NodeV>)
    ensures
        node_extends(a, a),
{
}

/// A walkable key's every prefix is walkable.
pub proof fn lemma_walk_prefix(m: Map<Seq<u8>, Seq<u8>>, p: Seq<u8>, k1: Seq<u8>, k2: Seq<u8>)
    requires
        k1.is_prefix_of(k2),
        walk_from(m, p, 0, k2) is Some,
    ensures
        walk_from(m, p, 0, k1) is Some,
{
    lemma_walk_append(m, p, 0, k1, k2.skip(k1.len() as int));
    assert(k1 + k2.skip(k1.len() as int) =~= k2);
}
} // verus!
