use vstd::prelude::*;

use crate::hashing::blake2_256;
use crate::hashing::digest_of;
use crate::keys::bytes_eq;
use crate::keys::seq_views;

verus! {

/// A store lookup miss: the digest was never put into this store.
#[derive(Debug, Clone, Copy, PartialEq, Eq, Structural)]
pub enum StoreError {
    NotFound,
}

pub open spec fn distinct_seqs(ds: Seq<Seq<u8>>) -> bool {
    forall|i: int, j: int| 0 <= i < j < ds.len() ==> ds[i] != ds[j]
}

spec fn store_map(ds: Seq<Seq<u8>>, bs: Seq<Seq<u8>>) -> Map<Seq<u8>, Seq<u8>>
    decreases ds.len(),
{
    if ds.len() == 0 || bs.len() == 0 {
        Map::empty()
    } else {
        store_map(ds.drop_last(), bs.drop_last()).insert(ds.last(), bs.last())
    }
}

proof fn lemma_store_map(ds: Seq<Seq<u8>>, bs: Seq<Seq<u8>>)
    requires
        ds.len() == bs.len(),
        distinct_seqs(ds),
    ensures
        forall|i: int| 0 <= i < ds.len() ==> store_map(ds, bs).contains_pair(ds[i], bs[i]),
        forall|d: Seq<u8>|
            store_map(ds, bs).dom().contains(d) ==> exists|i: int| 0 <= i < ds.len() && ds[i] == d,
    decreases ds.len(),
{
    if ds.len() > 0 {
        lemma_store_map(ds.drop_last(), bs.drop_last());
        assert forall|i: int| 0 <= i < ds.len() implies store_map(ds, bs).contains_pair(
            ds[i],
            bs[i],
        ) by {
            if i < ds.len() - 1 {
                assert(ds.drop_last()[i] == ds[i] && bs.drop_last()[i] == bs[i]);
                assert(ds[i] != ds.last());
            }
        };
        assert forall|d: Seq<u8>| store_map(ds, bs).dom().contains(d) implies exists|i: int|
            0 <= i < ds.len() && ds[i] == d by {
            if d == ds.last() {
                assert(ds[ds.len() - 1] == d);
            } else {
                assert(store_map(ds.drop_last(), bs.drop_last()).dom().contains(d));
                let i = choose|i: int| 0 <= i < ds.drop_last().len() && ds.drop_last()[i] == d;
                assert(ds[i] == d);
            }
        };
    }
}

/// The content-addressed node store: maps each stored blob's digest to the
/// blob. Append-only, bounded by one build; frozen once the root is out.
pub struct NodeStore {
    digests: Vec<Vec<u8>>,
    blobs: Vec<Vec<u8>>,
}

impl NodeStore {
    /// The digest-to-bytes mapping this store holds.
    pub closed spec fn contents(self) -> Map<Seq<u8>, Seq<u8>> {
        store_map(seq_views(self.digests@), seq_views(self.blobs@))
    }

    #[verifier::type_invariant]
    closed spec fn wf(self) -> bool {
        &&& self.digests@.len() == self.blobs@.len()
        &&& distinct_seqs(seq_views(self.digests@))
        &&& forall|i: int|
            0 <= i < self.digests@.len() ==> self.digests@[i]@ == digest_of(self.blobs@[i]@)
    }

    pub fn new() -> (r: NodeStore)
        ensures
            r.contents() == Map::<Seq<u8>, Seq<u8>>::empty(),
    {
        NodeStore { digests: Vec::new(), blobs: Vec::new() }
    }

    /// Stores one node's canonical serialization and returns its content
    /// digest. Idempotent: a digest already present keeps its first blob,
    /// so identical bytes are never duplicated.
    pub fn put(&mut self, bytes: Vec<u8>) -> (r: Vec<u8>)
        ensures
            r@ == digest_of(bytes@),
            r@.len() == 32,
            old(self).contents().contains_key(digest_of(bytes@)) ==> final(self).contents()
                == old(self).contents(),
            !old(self).contents().contains_key(digest_of(bytes@)) ==> final(self).contents()
                == old(self).contents().insert(digest_of(bytes@), bytes@),
    {
        proof {
            use_type_invariant(&*self);
        }
        let d = blake2_256(&bytes);
        let mut i: usize = 0;
        while i < self.digests.len()
            invariant
                i <= self.digests@.len(),
                d@ == digest_of(bytes@),
                d@.len() == 32,
                forall|j: int| 0 <= j < i ==> self.digests@[j]@ != d@,
            decreases self.digests@.len() - i,
        {
            if bytes_eq(&self.digests[i], &d) {
                proof {
                    use_type_invariant(&*self);
                    lemma_store_map(seq_views(self.digests@), seq_views(self.blobs@));
                    assert(seq_views(self.digests@)[i as int] == self.digests@[i as int]@);
                    assert(self.contents().contains_pair(
                        self.digests@[i as int]@,
                        self.blobs@[i as int]@,
                    ));
                }
                return d;
            }
            i = i + 1;
        }
        proof {
            use_type_invariant(&*self);
            lemma_store_map(seq_views(self.digests@), seq_views(self.blobs@));
            if self.contents().contains_key(d@) {
                let j = choose|j: int|
                    0 <= j < seq_views(self.digests@).len() && seq_views(self.digests@)[j] == d@;
                assert(self.digests@[j]@ == d@);
                assert(false);
            }
        }
        let ghost pre = *self;
        let mut tmp = NodeStore { digests: Vec::new(), blobs: Vec::new() };
        core::mem::swap(self, &mut tmp);
        let NodeStore { digests: mut ds, blobs: mut bs } = tmp;
        ds.push(d.clone());
        bs.push(bytes);
        proof {
            assert(seq_views(ds@).drop_last() =~= seq_views(pre.digests@));
            assert(seq_views(bs@).drop_last() =~= seq_views(pre.blobs@));
            assert(seq_views(ds@).last() == d@);
            assert forall|i: int, j: int|
                0 <= i < j < seq_views(ds@).len() implies seq_views(ds@)[i] != seq_views(
                ds@,
            )[j] by {
                if j < ds@.len() - 1 {
                    assert(seq_views(ds@)[i] == seq_views(pre.digests@)[i]);
                    assert(seq_views(ds@)[j] == seq_views(pre.digests@)[j]);
                } else {
                    assert(seq_views(ds@)[j] == d@);
                    assert(seq_views(ds@)[i] == pre.digests@[i]@);
                    assert(pre.digests@[i]@ != d@);
                }
            };
            assert(distinct_seqs(seq_views(ds@)));
        }
        *self = NodeStore { digests: ds, blobs: bs };
        proof {
            assert(self.contents() == store_map(seq_views(ds@), seq_views(bs@)));
        }
        d
    }

    /// Looks a node up by digest; `NotFound` exactly when the digest was
    /// never stored.
    pub fn get(&self, digest: &Vec<u8>) -> (r: Result<&Vec<u8>, StoreError>)
        ensures
            match r {
                Ok(bytes) => self.contents().contains_pair(digest@, bytes@),
                Err(e) => e == StoreError::NotFound && !self.contents().contains_key(digest@),
            },
    {
        proof {
            use_type_invariant(&*self);
        }
        let mut i: usize = 0;
        while i < self.digests.len()
            invariant
                i <= self.digests@.len(),
                forall|j: int| 0 <= j < i ==> self.digests@[j]@ != digest@,
            decreases self.digests@.len() - i,
        {
            if bytes_eq(&self.digests[i], digest) {
                proof {
                    use_type_invariant(&*self);
                    lemma_store_map(seq_views(self.digests@), seq_views(self.blobs@));
                    assert(seq_views(self.digests@)[i as int] == self.digests@[i as int]@);
                    assert(self.contents().contains_pair(
                        self.digests@[i as int]@,
                        self.blobs@[i as int]@,
                    ));
                }
                return Ok(&self.blobs[i]);
            }
            i = i + 1;
        }
        proof {
            use_type_invariant(&*self);
            lemma_store_map(seq_views(self.digests@), seq_views(self.blobs@));
            if self.contents().contains_key(digest@) {
                let j = choose|j: int|
                    0 <= j < seq_views(self.digests@).len() && seq_views(self.digests@)[j]
                        == digest@;
                assert(self.digests@[j]@ == digest@);
                assert(false);
            }
        }
        Err(StoreError::NotFound)
    }
}

} // verus!
