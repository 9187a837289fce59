use vstd::prelude::*;

use crate::hashing::digest_of;

verus! {

// ---------------------------------------------------------------------------
// Canonical node serialization.
//
// A node is one of Empty, Leaf(key-suffix, value), Extension(prefix,
// child digest) or Branch(16 optional child digests, optional value).
// Every variable-length field is prefixed by its length as four
// little-endian bytes, so each encoding parses back unambiguously.
// ---------------------------------------------------------------------------

pub open spec fn u32le(n: int) -> Seq<u8> {
    seq![
        (n % 256) as u8,
        (n / 256 % 256) as u8,
        (n / 65536 % 256) as u8,
        (n / 16777216 % 256) as u8,
    ]
}

pub open spec fn enc_empty() -> Seq<u8> {
    seq![0u8]
}

pub open spec fn enc_leaf(k: Seq<u8>, v: Seq<u8>) -> Seq<u8> {
    seq![1u8] + u32le(k.len() as int) + k + u32le(v.len() as int) + v
}

pub open spec fn enc_ext(p: Seq<u8>, d: Seq<u8>) -> Seq<u8> {
    seq![2u8] + u32le(p.len() as int) + p + u32le(d.len() as int) + d
}

pub open spec fn enc_opt(o: Option<Seq<u8>>) -> Seq<u8> {
    match o {
        Option::None => seq![0u8],
        Option::Some(b) => seq![1u8] + u32le(b.len() as int) + b,
    }
}

/// The concatenated encodings of the first `i` child slots.
pub open spec fn enc_children(cs: Seq<Option<Seq<u8>>>, i: int) -> Seq<u8>
    decreases i,
{
    if i <= 0 {
        Seq::empty()
    } else {
        enc_children(cs, i - 1) + enc_opt(cs[i - 1])
    }
}

pub open spec fn enc_branch(cs: Seq<Option<Seq<u8>>>, bv: Option<Seq<u8>>) -> Seq<u8> {
    seq![3u8] + enc_children(cs, 16) + enc_opt(bv)
}

// ---------------------------------------------------------------------------
// The trie shape over a set of (nibble-key, value) entries.
// ---------------------------------------------------------------------------

pub open spec fn is_prefix(p: Seq<u8>, k: Seq<u8>) -> bool {
    p.len() <= k.len() && k.subrange(0, p.len() as int) == p
}

pub open spec fn distinct_keys(s: Seq<(Seq<u8>, Seq<u8>)>) -> bool {
    forall|i: int, j: int| 0 <= i < j < s.len() ==> s[i].0 != s[j].0
}

pub open spec fn total_klen(s: Seq<(Seq<u8>, Seq<u8>)>) -> nat
    decreases s.len(),
{
    if s.len() == 0 {
        0
    } else {
        total_klen(s.drop_last()) + s.last().0.len()
    }
}

/// Longest common prefix of two nibble strings.
pub open spec fn lcp2(a: Seq<u8>, b: Seq<u8>) -> Seq<u8>
    decreases a.len(),
{
    if a.len() == 0 || b.len() == 0 || a[0] != b[0] {
        Seq::empty()
    } else {
        seq![a[0]] + lcp2(a.drop_first(), b.drop_first())
    }
}

/// Longest common prefix of all keys of a non-empty entry sequence.
pub open spec fn lcp_all(s: Seq<(Seq<u8>, Seq<u8>)>) -> Seq<u8>
    decreases s.len(),
{
    if s.len() <= 1 {
        if s.len() == 1 {
            s[0].0
        } else {
            Seq::empty()
        }
    } else {
        lcp2(lcp_all(s.drop_last()), s.last().0)
    }
}

/// The entries whose key starts with nibble `c`, in order.
pub open spec fn filt(s: Seq<(Seq<u8>, Seq<u8>)>, c: u8) -> Seq<(Seq<u8>, Seq<u8>)>
    decreases s.len(),
{
    if s.len() == 0 {
        Seq::empty()
    } else {
        let r = filt(s.drop_last(), c);
        if s.last().0.len() > 0 && s.last().0[0] == c {
            r.push(s.last())
        } else {
            r
        }
    }
}

/// Every entry with the first `n` nibbles of its key removed.
pub open spec fn strip(s: Seq<(Seq<u8>, Seq<u8>)>, n: int) -> Seq<(Seq<u8>, Seq<u8>)> {
    Seq::new(s.len(), |i: int| (s[i].0.skip(n), s[i].1))
}

/// The value of the entry whose key is exhausted at this node, if any.
pub open spec fn branch_val(s: Seq<(Seq<u8>, Seq<u8>)>) -> Option<Seq<u8>>
    decreases s.len(),
{
    if s.len() == 0 {
        Option::None
    } else if s.last().0.len() == 0 {
        Option::Some(s.last().1)
    } else {
        branch_val(s.drop_last())
    }
}

// -- lemmas feeding the termination measure ---------------------------------

pub proof fn lemma_lcp2_prefix(a: Seq<u8>, b: Seq<u8>)
    ensures
        is_prefix(lcp2(a, b), a),
        is_prefix(lcp2(a, b), b),
    decreases a.len(),
{
    if a.len() == 0 || b.len() == 0 || a[0] != b[0] {
        assert(a.subrange(0, 0) =~= Seq::<u8>::empty());
        assert(b.subrange(0, 0) =~= Seq::<u8>::empty());
    } else {
        lemma_lcp2_prefix(a.drop_first(), b.drop_first());
        let p = lcp2(a, b);
        let q = lcp2(a.drop_first(), b.drop_first());
        assert(a.subrange(0, p.len() as int) =~= seq![a[0]] + a.drop_first().subrange(
            0,
            q.len() as int,
        ));
        assert(b.subrange(0, p.len() as int) =~= seq![b[0]] + b.drop_first().subrange(
            0,
            q.len() as int,
        ));
    }
}

pub proof fn lemma_prefix_trans(a: Seq<u8>, b: Seq<u8>, c: Seq<u8>)
    requires
        is_prefix(a, b),
        is_prefix(b, c),
    ensures
        is_prefix(a, c),
{
    assert(c.subrange(0, a.len() as int) =~= c.subrange(0, b.len() as int).subrange(
        0,
        a.len() as int,
    ));
}

pub proof fn lemma_lcp_all_prefix(s: Seq<(Seq<u8>, Seq<u8>)>)
    requires
        s.len() >= 1,
    ensures
        forall|i: int| 0 <= i < s.len() ==> is_prefix(lcp_all(s), #[trigger] s[i].0),
    decreases s.len(),
{
    if s.len() == 1 {
        assert(s[0].0.subrange(0, s[0].0.len() as int) =~= s[0].0);
    } else {
        lemma_lcp_all_prefix(s.drop_last());
        lemma_lcp2_prefix(lcp_all(s.drop_last()), s.last().0);
        assert forall|i: int| 0 <= i < s.len() implies is_prefix(lcp_all(s), s[i].0) by {
            if i < s.len() - 1 {
                assert(s.drop_last()[i] == s[i]);
                assert(is_prefix(lcp_all(s.drop_last()), s[i].0));
                lemma_prefix_trans(lcp_all(s), lcp_all(s.drop_last()), s[i].0);
            }
        };
    }
}

pub proof fn lemma_total_klen_filt(s: Seq<(Seq<u8>, Seq<u8>)>, c: u8)
    ensures
        total_klen(filt(s, c)) <= total_klen(s),
        forall|i: int| 0 <= i < filt(s, c).len() ==> (#[trigger] filt(s, c)[i]).0.len() > 0,
    decreases s.len(),
{
    if s.len() > 0 {
        lemma_total_klen_filt(s.drop_last(), c);
        if s.last().0.len() > 0 && s.last().0[0] == c {
            assert(filt(s, c).drop_last() =~= filt(s.drop_last(), c));
        }
    }
}

pub proof fn lemma_total_klen_strip(s: Seq<(Seq<u8>, Seq<u8>)>, n: int)
    requires
        n >= 0,
        forall|i: int| 0 <= i < s.len() ==> (#[trigger] s[i].0).len() >= n,
    ensures
        total_klen(strip(s, n)) + s.len() * n == total_klen(s),
    decreases s.len(),
{
    if s.len() == 0 {
    } else {
        lemma_total_klen_strip(s.drop_last(), n);
        assert(strip(s, n).drop_last() =~= strip(s.drop_last(), n));
        assert(strip(s, n).last().0.len() == s.last().0.len() - n);
        assert((s.len() - 1) * n == s.len() * n - n) by (nonlinear_arith);
    }
}

// ---------------------------------------------------------------------------
// The canonical encoding of the trie over an entry set, the descent for a
// key, and the nodes a descent visits.
// ---------------------------------------------------------------------------

/// The serialized root node of the radix-16 trie holding the entries `s`
/// (keys already in nibble form). Children appear only through their
/// digests, so this byte string determines the whole tree's commitment.
pub open spec fn enc_trie(s: Seq<(Seq<u8>, Seq<u8>)>) -> Seq<u8>
    decreases total_klen(s), s.len(), 17int,
    via enc_trie_decreases
{
    if s.len() == 0 {
        enc_empty()
    } else if s.len() == 1 {
        enc_leaf(s[0].0, s[0].1)
    } else {
        let p = lcp_all(s);
        if p.len() > 0 {
            enc_ext(p, digest_of(enc_trie(strip(s, p.len() as int))))
        } else {
            enc_branch(child_digests(s, 0), branch_val(s))
        }
    }
}

/// The 16 child commitments of a branch node, from nibble `i` up.
pub open spec fn child_digests(s: Seq<(Seq<u8>, Seq<u8>)>, i: int) -> Seq<Option<Seq<u8>>>
    decreases total_klen(s), s.len(), 16 - i,
    via child_digests_decreases
{
    if i < 0 || i >= 16 {
        Seq::empty()
    } else {
        let c = filt(s, i as u8);
        let cd = if c.len() > 0 {
            Option::Some(digest_of(enc_trie(strip(c, 1))))
        } else {
            Option::None
        };
        seq![cd] + child_digests(s, i + 1)
    }
}

#[via_fn]
proof fn enc_trie_decreases(s: Seq<(Seq<u8>, Seq<u8>)>) {
    if s.len() > 1 {
        let p = lcp_all(s);
        if p.len() > 0 {
            lemma_lcp_all_prefix(s);
            lemma_total_klen_strip(s, p.len() as int);
            assert(s.len() * p.len() >= 2 * 1) by (nonlinear_arith)
                requires
                    s.len() >= 2,
                    p.len() >= 1,
            ;
        }
    }
}

#[via_fn]
proof fn child_digests_decreases(s: Seq<(Seq<u8>, Seq<u8>)>, i: int) {
    if 0 <= i < 16 {
        let c = filt(s, i as u8);
        if c.len() > 0 {
            lemma_total_klen_filt(s, i as u8);
            lemma_total_klen_strip(c, 1);
        }
    }
}

/// Where a descent for the nibble string `k` ends in the trie over `s`:
/// the value it reaches, or `None` for a provable absence.
pub open spec fn spec_resolve(s: Seq<(Seq<u8>, Seq<u8>)>, k: Seq<u8>) -> Option<Seq<u8>>
    decreases total_klen(s), s.len(),
    via spec_resolve_decreases
{
    if s.len() == 0 {
        Option::None
    } else if s.len() == 1 {
        if s[0].0 == k {
            Option::Some(s[0].1)
        } else {
            Option::None
        }
    } else {
        let p = lcp_all(s);
        if p.len() > 0 {
            if is_prefix(p, k) {
                spec_resolve(strip(s, p.len() as int), k.skip(p.len() as int))
            } else {
                Option::None
            }
        } else {
            if k.len() == 0 {
                branch_val(s)
            } else if filt(s, k[0]).len() > 0 {
                spec_resolve(strip(filt(s, k[0]), 1), k.skip(1))
            } else {
                Option::None
            }
        }
    }
}

#[via_fn]
proof fn spec_resolve_decreases(s: Seq<(Seq<u8>, Seq<u8>)>, k: Seq<u8>) {
    if s.len() > 1 {
        let p = lcp_all(s);
        if p.len() > 0 {
            lemma_lcp_all_prefix(s);
            lemma_total_klen_strip(s, p.len() as int);
            assert(s.len() * p.len() >= 2 * 1) by (nonlinear_arith)
                requires
                    s.len() >= 2,
                    p.len() >= 1,
            ;
        } else if k.len() > 0 {
            let c = filt(s, k[0]);
            if c.len() > 0 {
                lemma_total_klen_filt(s, k[0]);
                lemma_total_klen_strip(c, 1);
            }
        }
    }
}

/// The serialized nodes a descent for `k` visits, root first. This is what
/// a proof for `{k}` must carry: the nodes that resolve `k` to its value
/// or to a definitive absence.
pub open spec fn spec_walk(s: Seq<(Seq<u8>, Seq<u8>)>, k: Seq<u8>) -> Seq<Seq<u8>>
    decreases total_klen(s), s.len(),
    via spec_walk_decreases
{
    if s.len() <= 1 {
        seq![enc_trie(s)]
    } else {
        let p = lcp_all(s);
        if p.len() > 0 {
            if is_prefix(p, k) {
                seq![enc_trie(s)] + spec_walk(strip(s, p.len() as int), k.skip(p.len() as int))
            } else {
                seq![enc_trie(s)]
            }
        } else {
            if k.len() > 0 && filt(s, k[0]).len() > 0 {
                seq![enc_trie(s)] + spec_walk(strip(filt(s, k[0]), 1), k.skip(1))
            } else {
                seq![enc_trie(s)]
            }
        }
    }
}

#[via_fn]
proof fn spec_walk_decreases(s: Seq<(Seq<u8>, Seq<u8>)>, k: Seq<u8>) {
    if s.len() > 1 {
        let p = lcp_all(s);
        if p.len() > 0 {
            lemma_lcp_all_prefix(s);
            lemma_total_klen_strip(s, p.len() as int);
            assert(s.len() * p.len() >= 2 * 1) by (nonlinear_arith)
                requires
                    s.len() >= 2,
                    p.len() >= 1,
            ;
        } else if k.len() > 0 {
            let c = filt(s, k[0]);
            if c.len() > 0 {
                lemma_total_klen_filt(s, k[0]);
                lemma_total_klen_strip(c, 1);
            }
        }
    }
}

pub proof fn lemma_child_digests_len(s: Seq<(Seq<u8>, Seq<u8>)>, i: int)
    requires
        0 <= i <= 16,
    ensures
        child_digests(s, i).len() == 16 - i,
    decreases 16 - i,
{
    if i < 16 {
        lemma_child_digests_len(s, i + 1);
    }
}

pub proof fn lemma_child_digests_at(s: Seq<(Seq<u8>, Seq<u8>)>, i: int, c: int)
    requires
        0 <= i <= c < 16,
    ensures
        child_digests(s, i)[c - i] == (if filt(s, c as u8).len() > 0 {
            Option::Some(digest_of(enc_trie(strip(filt(s, c as u8), 1))))
        } else {
            Option::<Seq<u8>>::None
        }),
    decreases 16 - i,
{
    let cd = if filt(s, i as u8).len() > 0 {
        Option::Some(digest_of(enc_trie(strip(filt(s, i as u8), 1))))
    } else {
        Option::<Seq<u8>>::None
    };
    lemma_child_digests_len(s, i + 1);
    assert(child_digests(s, i) == seq![cd] + child_digests(s, i + 1));
    if i < c {
        lemma_child_digests_at(s, i + 1, c);
        assert(child_digests(s, i)[c - i] == child_digests(s, i + 1)[c - i - 1]);
    } else {
        assert(child_digests(s, i)[0] == cd);
    }
}

/// Properties of the branch partition: every selected entry starts with
/// the chosen nibble, comes from the unfiltered list, and distinctness of
/// keys carries over.
pub proof fn lemma_filt_props(s: Seq<(Seq<u8>, Seq<u8>)>, c: u8)
    ensures
        forall|i: int|
            0 <= i < filt(s, c).len() ==> (#[trigger] filt(s, c)[i]).0.len() > 0 && filt(s, c)[i].0[0]
                == c,
        forall|i: int| 0 <= i < filt(s, c).len() ==> s.contains(#[trigger] filt(s, c)[i]),
        distinct_keys(s) ==> distinct_keys(filt(s, c)),
        forall|e: (Seq<u8>, Seq<u8>)|
            s.contains(e) && e.0.len() > 0 && e.0[0] == c ==> filt(s, c).contains(e),
    decreases s.len(),
{
    if s.len() > 0 {
        lemma_filt_props(s.drop_last(), c);
        let r = filt(s, c);
        let q = filt(s.drop_last(), c);
        assert forall|i: int| 0 <= i < q.len() implies s.contains(#[trigger] q[i]) by {
            assert(s.drop_last().contains(q[i]));
            let m = choose|m: int| 0 <= m < s.drop_last().len() && s.drop_last()[m] == q[i];
            assert(s[m] == q[i]);
        };
        if distinct_keys(s) {
            assert(distinct_keys(s.drop_last())) by {
                assert forall|i: int, j: int|
                    0 <= i < j < s.drop_last().len() implies (#[trigger] s.drop_last()[i]).0 != (
                #[trigger] s.drop_last()[j]).0 by {
                    assert(s.drop_last()[i] == s[i] && s.drop_last()[j] == s[j]);
                };
            };
            if s.last().0.len() > 0 && s.last().0[0] == c {
                assert forall|i: int, j: int|
                    0 <= i < j < r.len() implies (#[trigger] r[i]).0 != (#[trigger] r[j]).0 by {
                    if j < r.len() - 1 {
                        assert(r[i] == q[i] && r[j] == q[j]);
                    } else {
                        assert(r[j] == s.last());
                        assert(r[i] == q[i]);
                        assert(s.drop_last().contains(q[i]));
                        let m = choose|m: int|
                            0 <= m < s.drop_last().len() && s.drop_last()[m] == q[i];
                        assert(s[m] == q[i]);
                        assert(s[m].0 != s[s.len() - 1].0);
                    }
                };
            }
        }
        assert forall|e: (Seq<u8>, Seq<u8>)|
            s.contains(e) && e.0.len() > 0 && e.0[0] == c implies r.contains(e) by {
            let m = choose|m: int| 0 <= m < s.len() && s[m] == e;
            if m < s.len() - 1 {
                assert(s.drop_last()[m] == e);
                assert(s.drop_last().contains(e));
                assert(q.contains(e));
                let w = choose|w: int| 0 <= w < q.len() && q[w] == e;
                assert(r[w] == e);
            } else {
                assert(r[r.len() - 1] == s.last());
            }
        };
    }
}

/// Stripping a shared prefix keeps distinct keys distinct.
pub proof fn lemma_strip_distinct(s: Seq<(Seq<u8>, Seq<u8>)>, n: int, p: Seq<u8>)
    requires
        distinct_keys(s),
        n == p.len(),
        forall|i: int| 0 <= i < s.len() ==> is_prefix(p, (#[trigger] s[i]).0),
    ensures
        distinct_keys(strip(s, n)),
{
    assert forall|i: int, j: int|
        0 <= i < j < strip(s, n).len() implies (#[trigger] strip(s, n)[i]).0 != (
    #[trigger] strip(s, n)[j]).0 by {
        if strip(s, n)[i].0 == strip(s, n)[j].0 {
            assert(s[i].0 =~= s[i].0.subrange(0, n) + s[i].0.skip(n));
            assert(s[j].0 =~= s[j].0.subrange(0, n) + s[j].0.skip(n));
            assert(s[i].0 == s[j].0);
            assert(false);
        }
    };
}

/// The nodes visited by the descents for every requested key, in order.
pub open spec fn walk_many(s: Seq<(Seq<u8>, Seq<u8>)>, ks: Seq<Seq<u8>>) -> Seq<Seq<u8>>
    decreases ks.len(),
{
    if ks.len() == 0 {
        Seq::empty()
    } else {
        walk_many(s, ks.drop_last()) + spec_walk(s, ks.last())
    }
}

/// First occurrence of each blob kept, later repeats dropped.
pub open spec fn dedup(bs: Seq<Seq<u8>>) -> Seq<Seq<u8>>
    decreases bs.len(),
{
    if bs.len() == 0 {
        Seq::empty()
    } else {
        let r = dedup(bs.drop_last());
        if r.contains(bs.last()) {
            r
        } else {
            r.push(bs.last())
        }
    }
}

/// The proof for a set of keys: every node any of their descents visits,
/// deduplicated, in first-visit order.
pub open spec fn spec_prove(s: Seq<(Seq<u8>, Seq<u8>)>, ks: Seq<Seq<u8>>) -> Seq<Seq<u8>> {
    dedup(walk_many(s, ks))
}

/// A deduplicated sequence holds no blob twice.
pub proof fn lemma_dedup_distinct(bs: Seq<Seq<u8>>)
    ensures
        forall|i: int, j: int| 0 <= i < j < dedup(bs).len() ==> dedup(bs)[i] != dedup(bs)[j],
        forall|b: Seq<u8>| dedup(bs).contains(b) <==> bs.contains(b),
    decreases bs.len(),
{
    if bs.len() > 0 {
        lemma_dedup_distinct(bs.drop_last());
        let r = dedup(bs.drop_last());
        assert forall|b: Seq<u8>| dedup(bs).contains(b) implies bs.contains(b) by {
            if r.contains(b) {
                assert(bs.drop_last().contains(b));
                let i = choose|i: int| 0 <= i < bs.drop_last().len() && bs.drop_last()[i] == b;
                assert(bs[i] == b);
            } else {
                assert(b == bs.last());
                assert(bs[bs.len() - 1] == b);
            }
        };
        assert forall|b: Seq<u8>| bs.contains(b) implies dedup(bs).contains(b) by {
            let i = choose|i: int| 0 <= i < bs.len() && bs[i] == b;
            if i < bs.len() - 1 {
                assert(bs.drop_last()[i] == b);
                assert(bs.drop_last().contains(b));
                assert(r.contains(b));
                if !r.contains(bs.last()) {
                    let m = choose|m: int| 0 <= m < r.len() && r[m] == b;
                    assert(dedup(bs)[m] == b);
                }
            } else {
                if r.contains(bs.last()) {
                    assert(r.contains(b));
                } else {
                    assert(dedup(bs)[dedup(bs).len() - 1] == b);
                }
            }
        };
        if !r.contains(bs.last()) {
            assert forall|i: int, j: int|
                0 <= i < j < dedup(bs).len() implies dedup(bs)[i] != dedup(bs)[j] by {
                if j == dedup(bs).len() - 1 {
                    assert(dedup(bs)[i] == r[i]);
                    assert(r.contains(r[i]));
                }
            };
        }
    }
}

/// Plain lookup in the entry list: the value at key `k`, if any.
pub open spec fn pairs_lookup(s: Seq<(Seq<u8>, Seq<u8>)>, k: Seq<u8>) -> Option<Seq<u8>>
    decreases s.len(),
{
    if s.len() == 0 {
        Option::None
    } else if s.last().0 == k {
        Option::Some(s.last().1)
    } else {
        pairs_lookup(s.drop_last(), k)
    }
}

} // verus!
