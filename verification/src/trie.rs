use vstd::prelude::*;

use crate::builder::bounded_entries;
use crate::builder::pairs_view;
use crate::builder::sorted_strict;
use crate::builder::BuildError;
use crate::builder::TrieBuilder;
use crate::builder::MAX_KEY_BYTES;
use crate::encode::enc_bounded;
use crate::encode::encode_node;
use crate::encode::tail_from;
use crate::hashing::digest_of;
use crate::keys::lemma_nibbles_injective;
use crate::keys::seq_views;
use crate::keys::spec_nibbles;
use crate::keys::to_nibbles;
use crate::keys::bytes_eq;
use crate::shape::dedup;
use crate::shape::distinct_keys;
use crate::shape::enc_trie;
use crate::shape::filt;
use crate::shape::is_prefix;
use crate::shape::lcp_all;
use crate::shape::lemma_filt_props;
use crate::shape::lemma_lcp_all_prefix;
use crate::shape::lemma_strip_distinct;
use crate::shape::lemma_total_klen_filt;
use crate::shape::lemma_total_klen_strip;
use crate::shape::spec_prove;
use crate::shape::spec_walk;
use crate::shape::strip;
use crate::shape::total_klen;
use crate::shape::walk_many;
use crate::store::NodeStore;

verus! {

/// The entries with every key expanded to nibbles.
pub open spec fn nib_entries(s: Seq<(Seq<u8>, Seq<u8>)>) -> Seq<(Seq<u8>, Seq<u8>)> {
    Seq::new(s.len(), |i: int| (spec_nibbles(s[i].0), s[i].1))
}

/// The root commitment of a byte-keyed record set: the digest of the
/// canonical trie serialization over its nibble-expanded entries.
pub open spec fn spec_root(s: Seq<(Seq<u8>, Seq<u8>)>) -> Seq<u8> {
    digest_of(enc_trie(nib_entries(s)))
}

/// The nibble expansions of a list of byte keys.
pub open spec fn nib_keys(ks: Seq<Vec<u8>>) -> Seq<Seq<u8>> {
    Seq::new(ks.len(), |i: int| spec_nibbles(ks[i]@))
}

fn nibble_entries(es: &Vec<(Vec<u8>, Vec<u8>)>) -> (r: Vec<(Vec<u8>, Vec<u8>)>)
    requires
        bounded_entries(pairs_view(es@)),
    ensures
        pairs_view(r@) == nib_entries(pairs_view(es@)),
{
    let mut r: Vec<(Vec<u8>, Vec<u8>)> = Vec::new();
    let mut i: usize = 0;
    while i < es.len()
        invariant
            i <= es@.len(),
            r@.len() == i,
            bounded_entries(pairs_view(es@)),
            forall|j: int|
                0 <= j < i ==> #[trigger] pairs_view(r@)[j] == (
                    spec_nibbles(pairs_view(es@)[j].0),
                    pairs_view(es@)[j].1,
                ),
        decreases es@.len() - i,
    {
        let e = &es[i];
        proof {
            assert(pairs_view(es@)[i as int] == (es@[i as int].0@, es@[i as int].1@));
        }
        let k = to_nibbles(&e.0);
        let v = tail_from(&e.1, 0);
        proof {
            assert(v@ =~= e.1@);
        }
        let ghost r0 = r@;
        r.push((k, v));
        i = i + 1;
        proof {
            assert(pairs_view(r@)[i - 1] == (k@, v@));
            assert forall|j: int| 0 <= j < i - 1 implies #[trigger] pairs_view(r@)[j]
                == pairs_view(r0)[j] by {
                assert(r@[j] == r0[j]);
            };
        }
    }
    proof {
        assert(pairs_view(r@) =~= nib_entries(pairs_view(es@)));
    }
    r
}

pub proof fn lemma_nib_entries_props(s: Seq<(Seq<u8>, Seq<u8>)>)
    requires
        sorted_strict(s),
        bounded_entries(s),
    ensures
        distinct_keys(nib_entries(s)),
        enc_bounded(nib_entries(s)),
{
    assert forall|i: int, j: int|
        0 <= i < j < nib_entries(s).len() implies (#[trigger] nib_entries(s)[i]).0 != (
    #[trigger] nib_entries(s)[j]).0 by {
        if nib_entries(s)[i].0 == nib_entries(s)[j].0 {
            lemma_nibbles_injective(s[i].0, s[j].0);
            assert(crate::builder::lex_lt(s[i].0, s[j].0));
            assert(false);
        }
    };
    assert forall|i: int|
        0 <= i < nib_entries(s).len() implies (#[trigger] nib_entries(s)[i]).0.len()
        <= 0x7FFFFFFEint && nib_entries(s)[i].1.len() <= 0xFFFFFFFEint by {
        assert(s[i].0.len() <= MAX_KEY_BYTES as int && s[i].1.len() <= 0xFFFFFFFEint);
    };
}

/// The frozen, queryable trie: the committed record set, its root digest,
/// and the node store that backed the build.
pub struct Trie {
    entries: Vec<(Vec<u8>, Vec<u8>)>,
    root: Vec<u8>,
    store: NodeStore,
}

impl Trie {
    /// The committed (key, value) set, ordered by key.
    pub closed spec fn entries_view(self) -> Seq<(Seq<u8>, Seq<u8>)> {
        pairs_view(self.entries@)
    }

    /// What the backing node store holds.
    pub closed spec fn store_contents(self) -> Map<Seq<u8>, Seq<u8>> {
        self.store.contents()
    }

    #[verifier::type_invariant]
    closed spec fn wf(self) -> bool {
        &&& sorted_strict(pairs_view(self.entries@))
        &&& bounded_entries(pairs_view(self.entries@))
        &&& self.root@ == spec_root(pairs_view(self.entries@))
        &&& self.root@.len() == 32
    }

    /// Freezes a builder's record set: serializes the trie bottom-up into
    /// a fresh node store and fixes the root digest.
    pub fn from_builder(b: TrieBuilder) -> (r: Trie)
        ensures
            r.entries_view() == b.entries_view(),
            r.store_contents().dom().contains(spec_root(b.entries_view())),
    {
        let entries = b.into_entries();
        proof {
            lemma_nib_entries_props(pairs_view(entries@));
        }
        let nibs = nibble_entries(&entries);
        let mut store = NodeStore::new();
        let enc = encode_node(&nibs, &mut store);
        let root = store.put(enc);
        Trie { entries, root, store }
    }

    /// The root digest committing to the whole record set.
    pub fn root(&self) -> (r: &Vec<u8>)
        ensures
            r@ == spec_root(self.entries_view()),
            r@.len() == 32,
    {
        proof {
            use_type_invariant(&*self);
        }
        &self.root
    }

    /// Read access to the backing node store.
    pub fn store(&self) -> (r: &NodeStore)
        ensures
            r.contents() == self.store_contents(),
    {
        &self.store
    }

    /// Generates the compact proof for the requested keys: exactly the
    /// nodes their lookups touch, deduplicated, root node first.
    pub fn prove(&self, keys: &Vec<Vec<u8>>) -> (r: Vec<Vec<u8>>)
        requires
            forall|i: int| 0 <= i < keys@.len() ==> (#[trigger] keys@[i])@.len()
                <= MAX_KEY_BYTES as int,
        ensures
            seq_views(r@) == spec_prove(nib_entries(self.entries_view()), nib_keys(keys@)),
    {
        proof {
            use_type_invariant(&*self);
            lemma_nib_entries_props(pairs_view(self.entries@));
        }
        let nibs = nibble_entries(&self.entries);
        let ghost nv = nib_entries(pairs_view(self.entries@));
        let mut all: Vec<Vec<u8>> = Vec::new();
        let mut scratch = NodeStore::new();
        let mut i: usize = 0;
        while i < keys.len()
            invariant
                i <= keys@.len(),
                forall|j: int| 0 <= j < keys@.len() ==> (#[trigger] keys@[j])@.len()
                    <= MAX_KEY_BYTES as int,
                pairs_view(nibs@) == nv,
                distinct_keys(nv),
                enc_bounded(nv),
                seq_views(all@) == walk_many(nv, nib_keys(keys@).subrange(0, i as int)),
            decreases keys@.len() - i,
        {
            let nk = to_nibbles(&keys[i]);
            walk_nodes(&nibs, &nk, &mut all, &mut scratch);
            i = i + 1;
            proof {
                let ks = nib_keys(keys@);
                assert(ks.subrange(0, i as int).drop_last() =~= ks.subrange(0, i - 1));
                assert(ks.subrange(0, i as int).last() == ks[i - 1]);
                assert(nk@ == ks[i - 1]);
            }
        }
        proof {
            assert(nib_keys(keys@).subrange(0, keys@.len() as int) =~= nib_keys(keys@));
        }
        // Deduplicate, keeping the first occurrence of every node blob.
        let mut out: Vec<Vec<u8>> = Vec::new();
        let mut j: usize = 0;
        while j < all.len()
            invariant
                j <= all@.len(),
                seq_views(out@) == dedup(seq_views(all@).subrange(0, j as int)),
            decreases all@.len() - j,
        {
            let present = contains_bytes(&out, &all[j]);
            if !present {
                let blob = tail_from(&all[j], 0);
                proof {
                    assert(blob@ =~= all@[j as int]@);
                }
                out.push(blob);
            }
            j = j + 1;
            proof {
                let av = seq_views(all@);
                assert(av.subrange(0, j as int).drop_last() =~= av.subrange(0, j - 1));
                assert(av.subrange(0, j as int).last() == av[j - 1]);
                if present {
                    assert(seq_views(out@) =~= dedup(av.subrange(0, j as int)));
                } else {
                    assert(seq_views(out@) =~= dedup(av.subrange(0, j as int)));
                }
            }
        }
        proof {
            assert(seq_views(all@).subrange(0, all@.len() as int) =~= seq_views(all@));
        }
        out
    }
}

fn contains_bytes(v: &Vec<Vec<u8>>, b: &Vec<u8>) -> (r: bool)
    ensures
        r == seq_views(v@).contains(b@),
{
    let mut i: usize = 0;
    while i < v.len()
        invariant
            i <= v@.len(),
            forall|j: int| 0 <= j < i ==> seq_views(v@)[j] != b@,
        decreases v@.len() - i,
    {
        if bytes_eq(&v[i], b) {
            proof {
                assert(seq_views(v@)[i as int] == b@);
            }
            return true;
        }
        i = i + 1;
    }
    proof {
        if seq_views(v@).contains(b@) {
            let j = choose|j: int| 0 <= j < seq_views(v@).len() && seq_views(v@)[j] == b@;
            assert(false);
        }
    }
    false
}

fn is_prefix_exec(p: &Vec<u8>, k: &Vec<u8>) -> (r: bool)
    ensures
        r == is_prefix(p@, k@),
{
    if p.len() > k.len() {
        return false;
    }
    let mut i: usize = 0;
    while i < p.len()
        invariant
            i <= p@.len() <= k@.len(),
            forall|j: int| 0 <= j < i ==> p@[j] == k@[j],
        decreases p@.len() - i,
    {
        if p[i] != k[i] {
            proof {
                if is_prefix(p@, k@) {
                    assert(k@.subrange(0, p@.len() as int)[i as int] == k@[i as int]);
                }
            }
            return false;
        }
        i = i + 1;
    }
    proof {
        assert(k@.subrange(0, p@.len() as int) =~= p@);
    }
    true
}

/// Appends to `out` the serialized nodes the descent for `nib` visits in
/// the trie over `es`, root node first.
fn walk_nodes(
    es: &Vec<(Vec<u8>, Vec<u8>)>,
    nib: &Vec<u8>,
    out: &mut Vec<Vec<u8>>,
    scratch: &mut NodeStore,
)
    requires
        distinct_keys(pairs_view(es@)),
        enc_bounded(pairs_view(es@)),
    ensures
        seq_views(final(out)@) == seq_views(old(out)@) + spec_walk(pairs_view(es@), nib@),
    decreases total_klen(pairs_view(es@)), pairs_view(es@).len(),
{
    let ghost v = pairs_view(es@);
    let enc = encode_node(es, scratch);
    let ghost out0 = seq_views(out@);
    out.push(enc);
    proof {
        assert(seq_views(out@) =~= out0 + seq![enc_trie(v)]);
    }
    if es.len() <= 1 {
        proof {
            assert(spec_walk(v, nib@) == seq![enc_trie(v)]);
        }
        return ;
    }
    let p = crate::encode::lcp_entries(es);
    if p.len() > 0 {
        let pref_ok = is_prefix_exec(&p, nib);
        if pref_ok {
            proof {
                lemma_lcp_all_prefix(v);
                lemma_total_klen_strip(v, p@.len() as int);
                assert(v.len() * p@.len() >= 2 * 1) by (nonlinear_arith)
                    requires
                        v.len() >= 2,
                        p@.len() >= 1,
                ;
                lemma_strip_distinct(v, p@.len() as int, p@);
            }
            let child = crate::encode::strip_entries(es, p.len());
            let rest = tail_from(nib, p.len());
            walk_nodes(&child, &rest, out, scratch);
            proof {
                assert(seq_views(out@) =~= out0 + (seq![enc_trie(v)] + spec_walk(
                    strip(v, p@.len() as int),
                    nib@.skip(p@.len() as int),
                )));
            }
        } else {
            proof {
                assert(spec_walk(v, nib@) == seq![enc_trie(v)]);
            }
        }
        return ;
    }
    if nib.len() > 0 {
        let c0 = nib[0];
        let ces = crate::encode::child_entries(es, c0);
        if ces.len() > 0 {
            proof {
                let f = filt(v, c0);
                lemma_filt_props(v, c0);
                lemma_total_klen_filt(v, c0);
                lemma_total_klen_strip(f, 1);
                assert forall|i: int| 0 <= i < f.len() implies is_prefix(
                    seq![c0],
                    (#[trigger] f[i]).0,
                ) by {
                    assert(f[i].0.subrange(0, 1) =~= seq![f[i].0[0]]);
                };
                lemma_strip_distinct(f, 1, seq![c0]);
                assert forall|m: int|
                    0 <= m < strip(f, 1).len() implies (#[trigger] strip(f, 1)[m]).0.len()
                    <= 0x7FFFFFFEint && strip(f, 1)[m].1.len() <= 0xFFFFFFFEint by {
                    assert(v.contains(f[m]));
                    let w = choose|w: int| 0 <= w < v.len() && v[w] == f[m];
                    assert(v[w].0.len() <= 0x7FFFFFFEint);
                };
            }
            let rest = tail_from(nib, 1);
            walk_nodes(&ces, &rest, out, scratch);
            proof {
                assert(seq_views(out@) =~= out0 + (seq![enc_trie(v)] + spec_walk(
                    strip(filt(v, nib@[0]), 1),
                    nib@.skip(1),
                )));
            }
            return ;
        }
    }
    proof {
        assert(spec_walk(v, nib@) == seq![enc_trie(v)]);
    }
}

/// Builds the record sequence into a frozen trie in one call: every
/// record inserted in order (later duplicates overwrite), then finalized.
/// Rejects exactly a record whose key and value are both empty.
pub fn build(records: Vec<(Vec<u8>, Vec<u8>)>) -> (r: Result<Trie, BuildError>)
    requires
        forall|i: int|
            0 <= i < records@.len() ==> (#[trigger] records@[i]).0@.len() <= MAX_KEY_BYTES as int
                && records@[i].1@.len() <= crate::builder::MAX_VALUE_BYTES as int,
    ensures
        match r {
            Ok(t) => t.entries_view() == crate::builder::spec_build(pairs_view(records@))
                && (forall|i: int|
                0 <= i < records@.len() ==> (#[trigger] records@[i]).0@.len() + records@[i].1@.len()
                    > 0),
            Err(e) => e == BuildError::EmptyEntry && (exists|i: int|
                0 <= i < records@.len() && (#[trigger] records@[i]).0@.len() == 0
                    && records@[i].1@.len() == 0),
        },
{
    let mut b = TrieBuilder::new();
    let mut i: usize = 0;
    proof {
        assert(b.entries_view() =~= crate::builder::spec_build(
            pairs_view(records@).subrange(0, 0),
        ));
    }
    while i < records.len()
        invariant
            i <= records@.len(),
            forall|j: int|
                0 <= j < records@.len() ==> (#[trigger] records@[j]).0@.len()
                    <= MAX_KEY_BYTES as int && records@[j].1@.len()
                    <= crate::builder::MAX_VALUE_BYTES as int,
            forall|j: int|
                0 <= j < i ==> (#[trigger] pairs_view(records@)[j]).0.len() + pairs_view(
                    records@,
                )[j].1.len() > 0,
            b.entries_view() == crate::builder::spec_build(
                pairs_view(records@).subrange(0, i as int),
            ),
        decreases records@.len() - i,
    {
        let e = &records[i];
        proof {
            assert(pairs_view(records@)[i as int] == (records@[i as int].0@, records@[i as int].1@));
        }
        let k = tail_from(&e.0, 0);
        let val = tail_from(&e.1, 0);
        proof {
            assert(k@ =~= e.0@);
            assert(val@ =~= e.1@);
        }
        match b.insert(k, val) {
            Ok(()) => {},
            Err(err) => {
                proof {
                    assert(records@[i as int].0@.len() == 0 && records@[i as int].1@.len() == 0);
                }
                return Err(err);
            },
        }
        i = i + 1;
        proof {
            let rv = pairs_view(records@);
            assert(rv.subrange(0, i as int).drop_last() =~= rv.subrange(0, i - 1));
            assert(rv.subrange(0, i as int).last() == rv[i - 1]);
        }
    }
    proof {
        assert(pairs_view(records@).subrange(0, records@.len() as int) =~= pairs_view(records@));
        assert forall|j: int|
            0 <= j < records@.len() implies (#[trigger] records@[j]).0@.len()
            + records@[j].1@.len() > 0 by {
            assert(pairs_view(records@)[j] == (records@[j].0@, records@[j].1@));
        };
    }
    Ok(Trie::from_builder(b))
}

} // verus!
