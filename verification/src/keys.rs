//! Key-space mapper: derives the backing-store keys for trie metadata, a
//! node record, and a node's value cell, all scoped under a namespace prefix.
//!
//! The three families are kept disjoint by their lengths: the metadata key is
//! the bare prefix, a node key appends a fixed-width little-endian index, and
//! a value-cell key appends a literal suffix after the index.
use vstd::prelude::*;
use vstd::bytes::{spec_u64_to_le_bytes, u64_to_le_bytes, lemma_auto_spec_u64_to_from_le_bytes};

verus! {

/// Longest supported namespace prefix, in bytes.
pub const MAX_NAMESPACE_LEN: usize = 1009;

/// Literal suffix that sets a value-cell key apart from a node key.
pub open spec fn spec_value_suffix() -> Seq<u8> {
    seq![47u8, 118u8, 97u8, 108u8, 117u8, 101u8, 115u8]
}

/// Key under which the namespace's metadata record is stored.
pub open spec fn spec_meta_key(prefix: Seq<u8>) -> Seq<u8> {
    prefix
}

/// Key under which node `n`'s record is stored.
pub open spec fn spec_node_key(prefix: Seq<u8>, n: u64) -> Seq<u8> {
    prefix + spec_u64_to_le_bytes(n)
}

/// Key under which node `n`'s value cell is stored.
pub open spec fn spec_value_key(prefix: Seq<u8>, n: u64) -> Seq<u8> {
    prefix + spec_u64_to_le_bytes(n) + spec_value_suffix()
}

/// Builds the metadata key for a namespace.
pub fn meta_key(prefix: &Vec<u8>) -> (k: Vec<u8>)
    ensures
        k@ == spec_meta_key(prefix@),
{
    prefix.clone()
}

/// Builds the node key for index `n` under a namespace.
pub fn node_key(prefix: &Vec<u8>, n: u64) -> (k: Vec<u8>)
    ensures
        k@ == spec_node_key(prefix@, n),
{
    let mut k = prefix.clone();
    let mut idx = u64_to_le_bytes(n);
    k.append(&mut idx);
    k
}

/// Builds the value-cell key for index `n` under a namespace.
pub fn value_key(prefix: &Vec<u8>, n: u64) -> (k: Vec<u8>)
    ensures
        k@ == spec_value_key(prefix@, n),
{
    let mut k = prefix.clone();
    let mut idx = u64_to_le_bytes(n);
    k.append(&mut idx);
    k.push(47u8);
    k.push(118u8);
    k.push(97u8);
    k.push(108u8);
    k.push(117u8);
    k.push(101u8);
    k.push(115u8);
    proof {
        lemma_auto_spec_u64_to_from_le_bytes();
        assert(k@ =~= spec_value_key(prefix@, n));
    }
    k
}

/// The three key families a namespace uses have pairwise distinct lengths,
/// so no key of one family ever equals a key of another, and node keys
/// (likewise value-cell keys) for distinct indices differ.
pub proof fn lemma_keys_disjoint(prefix: Seq<u8>, n1: u64, n2: u64)
    ensures
        spec_node_key(prefix, n1) != spec_meta_key(prefix),
        spec_value_key(prefix, n1) != spec_meta_key(prefix),
        spec_value_key(prefix, n1) != spec_node_key(prefix, n2),
        n1 != n2 ==> spec_node_key(prefix, n1) != spec_node_key(prefix, n2),
        n1 != n2 ==> spec_value_key(prefix, n1) != spec_value_key(prefix, n2),
{
    lemma_auto_spec_u64_to_from_le_bytes();
    assert(spec_node_key(prefix, n1).len() == prefix.len() + 8);
    assert(spec_value_key(prefix, n1).len() == prefix.len() + 15);
    if n1 != n2 {
        if spec_node_key(prefix, n1) == spec_node_key(prefix, n2) {
            assert(spec_node_key(prefix, n1).subrange(
                prefix.len() as int,
                prefix.len() + 8 as int,
            ) =~= spec_u64_to_le_bytes(n1));
            assert(spec_node_key(prefix, n2).subrange(
                prefix.len() as int,
                prefix.len() + 8 as int,
            ) =~= spec_u64_to_le_bytes(n2));
            assert(spec_u64_to_le_bytes(n1) == spec_u64_to_le_bytes(n2));
            assert(false);
        }
        if spec_value_key(prefix, n1) == spec_value_key(prefix, n2) {
            assert(spec_value_key(prefix, n1).subrange(
                prefix.len() as int,
                prefix.len() + 8 as int,
            ) =~= spec_u64_to_le_bytes(n1));
            assert(spec_value_key(prefix, n2).subrange(
                prefix.len() as int,
                prefix.len() + 8 as int,
            ) =~= spec_u64_to_le_bytes(n2));
            assert(spec_u64_to_le_bytes(n1) == spec_u64_to_le_bytes(n2));
            assert(false);
        }
    }
}

/// Every key of a namespace starts with its prefix.
pub proof fn lemma_keys_in_namespace(prefix: Seq<u8>, n: u64)
    ensures
        prefix.is_prefix_of(spec_meta_key(prefix)),
        prefix.is_prefix_of(spec_node_key(prefix, n)),
        prefix.is_prefix_of(spec_value_key(prefix, n)),
{
    lemma_auto_spec_u64_to_from_le_bytes();
    assert(spec_node_key(prefix, n).subrange(0, prefix.len() as int) =~= prefix);
    assert(spec_value_key(prefix, n).subrange(0, prefix.len() as int) =~= prefix);
}

} // verus!
