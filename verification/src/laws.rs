use vstd::prelude::*;

use crate::builder::distinct_record_keys;
use crate::builder::lemma_sorted_unique;
use crate::builder::lemma_spec_build;
use crate::builder::spec_build;
use crate::hashing::digest_of;
use crate::shape::enc_empty;
use crate::shape::enc_trie;
use crate::shape::lemma_dedup_distinct;
use crate::shape::spec_prove;
use crate::shape::walk_many;
use crate::trie::nib_entries;
use crate::trie::spec_root;

verus! {

/// Insertion order does not matter: two record sequences holding the
/// same multiset of (key, value) pairs, neither repeating a key, build
/// the same entry set and so commit to the same root digest.
pub proof fn lemma_root_insertion_order(s1: Seq<(Seq<u8>, Seq<u8>)>, s2: Seq<(Seq<u8>, Seq<u8>)>)
    requires
        distinct_record_keys(s1),
        distinct_record_keys(s2),
        s1.to_multiset() == s2.to_multiset(),
    ensures
        spec_build(s1) == spec_build(s2),
        spec_root(spec_build(s1)) == spec_root(spec_build(s2)),
{
    broadcast use vstd::seq_lib::group_to_multiset_ensures;

    lemma_spec_build(s1);
    lemma_spec_build(s2);
    assert forall|e: (Seq<u8>, Seq<u8>)| spec_build(s1).contains(e) <==> spec_build(s2).contains(
        e,
    ) by {
        assert(s1.to_multiset().count(e) == s2.to_multiset().count(e));
        assert(s1.contains(e) <==> s1.to_multiset().count(e) > 0);
        assert(s2.contains(e) <==> s2.to_multiset().count(e) > 0);
    };
    lemma_sorted_unique(spec_build(s1), spec_build(s2));
}

/// The empty record set has one canonical root: the digest of the empty
/// node's serialization. As a function of the record set alone, it is
/// the same across repeated builds.
pub proof fn lemma_empty_root_canonical()
    ensures
        spec_root(Seq::empty()) == digest_of(seq![0u8]),
{
    assert(nib_entries(Seq::empty()) =~= Seq::<(Seq<u8>, Seq<u8>)>::empty());
    assert(enc_trie(Seq::empty()) == enc_empty());
    assert(enc_empty() =~= seq![0u8]);
}

/// A generated proof never carries the same node blob twice, however
/// many requested keys share nodes on their paths.
pub proof fn lemma_proof_no_duplicates(s: Seq<(Seq<u8>, Seq<u8>)>, ks: Seq<Seq<u8>>)
    ensures
        forall|i: int, j: int|
            0 <= i < j < spec_prove(s, ks).len() ==> spec_prove(s, ks)[i] != spec_prove(s, ks)[j],
        forall|b: Seq<u8>| spec_prove(s, ks).contains(b) <==> walk_many(s, ks).contains(b),
{
    lemma_dedup_distinct(walk_many(s, ks));
}

} // verus!
