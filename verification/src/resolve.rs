use vstd::prelude::*;

use crate::encode::lemma_branch_val;
use crate::shape::branch_val;
use crate::shape::distinct_keys;
use crate::shape::filt;
use crate::shape::is_prefix;
use crate::shape::lcp_all;
use crate::shape::lemma_filt_props;
use crate::shape::lemma_lcp_all_prefix;
use crate::shape::lemma_strip_distinct;
use crate::shape::lemma_total_klen_filt;
use crate::shape::lemma_total_klen_strip;
use crate::shape::pairs_lookup;
use crate::shape::spec_resolve;
use crate::shape::strip;
use crate::shape::total_klen;

verus! {

pub proof fn lemma_pairs_lookup_key(s: Seq<(Seq<u8>, Seq<u8>)>, k: Seq<u8>)
    ensures
        (pairs_lookup(s, k) is Some) == (exists|i: int| 0 <= i < s.len() && (#[trigger] s[i]).0 == k),
        pairs_lookup(s, k) is Some ==> s.contains((k, pairs_lookup(s, k).unwrap())),
    decreases s.len(),
{
    if s.len() > 0 {
        lemma_pairs_lookup_key(s.drop_last(), k);
        if s.last().0 == k {
            assert(s[s.len() - 1].0 == k);
            assert(s.contains((k, s.last().1)));
        } else {
            if pairs_lookup(s, k) is Some {
                let i = choose|i: int|
                    0 <= i < s.drop_last().len() && (#[trigger] s.drop_last()[i]).0 == k;
                assert(s[i].0 == k);
                assert(s.drop_last().contains((k, pairs_lookup(s, k).unwrap())));
                let m = choose|m: int|
                    0 <= m < s.drop_last().len() && s.drop_last()[m] == (
                        k,
                        pairs_lookup(s, k).unwrap(),
                    );
                assert(s[m] == (k, pairs_lookup(s, k).unwrap()));
            } else {
                if exists|i: int| 0 <= i < s.len() && (#[trigger] s[i]).0 == k {
                    let i = choose|i: int| 0 <= i < s.len() && (#[trigger] s[i]).0 == k;
                    assert(i < s.len() - 1);
                    assert(s.drop_last()[i].0 == k);
                    assert(false);
                }
            }
        }
    }
}

/// Looking a key up among entries sharing the prefix `p` is looking its
/// tail up among the stripped entries.
proof fn lemma_lookup_strip(s: Seq<(Seq<u8>, Seq<u8>)>, k: Seq<u8>, p: Seq<u8>)
    requires
        forall|i: int| 0 <= i < s.len() ==> is_prefix(p, (#[trigger] s[i]).0),
        is_prefix(p, k),
    ensures
        pairs_lookup(strip(s, p.len() as int), k.skip(p.len() as int)) == pairs_lookup(s, k),
    decreases s.len(),
{
    let n = p.len() as int;
    if s.len() > 0 {
        lemma_lookup_strip(s.drop_last(), k, p);
        assert(strip(s, n).drop_last() =~= strip(s.drop_last(), n));
        assert(strip(s, n).last() == (s.last().0.skip(n), s.last().1));
        assert((s.last().0 == k) == (s.last().0.skip(n) == k.skip(n))) by {
            if s.last().0.skip(n) == k.skip(n) && s.last().0 != k {
                assert(s.last().0 =~= s.last().0.subrange(0, n) + s.last().0.skip(n));
                assert(k =~= k.subrange(0, n) + k.skip(n));
                assert(s.last().0.subrange(0, n) == p && k.subrange(0, n) == p);
                assert(false);
            }
        };
    }
}

/// Keys beginning with nibble `c` resolve identically before and after
/// the branch partition for `c`.
proof fn lemma_lookup_filt(s: Seq<(Seq<u8>, Seq<u8>)>, c: u8, k: Seq<u8>)
    requires
        k.len() > 0,
        k[0] == c,
    ensures
        pairs_lookup(filt(s, c), k) == pairs_lookup(s, k),
    decreases s.len(),
{
    if s.len() > 0 {
        lemma_lookup_filt(s.drop_last(), c, k);
        if s.last().0.len() > 0 && s.last().0[0] == c {
            assert(filt(s, c) == filt(s.drop_last(), c).push(s.last()));
            assert(filt(s, c).drop_last() =~= filt(s.drop_last(), c));
            assert(filt(s, c).last() == s.last());
        } else {
            assert(filt(s, c) == filt(s.drop_last(), c));
            assert(s.last().0 != k);
        }
    }
}

/// The structural descent resolves every key exactly as a plain lookup
/// in the entry list does: to its value when present, to absence when
/// not. This is the functional correctness of the trie shape.
pub proof fn lemma_resolve_is_lookup(s: Seq<(Seq<u8>, Seq<u8>)>, k: Seq<u8>)
    requires
        distinct_keys(s),
    ensures
        spec_resolve(s, k) == pairs_lookup(s, k),
    decreases total_klen(s), s.len(),
{
    if s.len() == 0 {
    } else if s.len() == 1 {
        assert(pairs_lookup(s, k) == if s[0].0 == k {
            Option::Some(s[0].1)
        } else {
            pairs_lookup(s.drop_last(), k)
        });
    } else {
        let p = lcp_all(s);
        lemma_lcp_all_prefix(s);
        if p.len() > 0 {
            lemma_total_klen_strip(s, p.len() as int);
            assert(s.len() * p.len() >= 2 * 1) by (nonlinear_arith)
                requires
                    s.len() >= 2,
                    p.len() >= 1,
            ;
            if is_prefix(p, k) {
                lemma_strip_distinct(s, p.len() as int, p);
                lemma_resolve_is_lookup(strip(s, p.len() as int), k.skip(p.len() as int));
                lemma_lookup_strip(s, k, p);
            } else {
                lemma_pairs_lookup_key(s, k);
                if pairs_lookup(s, k) is Some {
                    let i = choose|i: int| 0 <= i < s.len() && (#[trigger] s[i]).0 == k;
                    assert(is_prefix(p, s[i].0));
                    assert(false);
                }
            }
        } else {
            if k.len() == 0 {
                lemma_branch_val(s);
                lemma_pairs_lookup_key(s, k);
                if exists|i: int| 0 <= i < s.len() && (#[trigger] s[i]).0 == k {
                    let i = choose|i: int| 0 <= i < s.len() && (#[trigger] s[i]).0 == k;
                    assert(s[i].0.len() == 0);
                    assert(branch_val(s) == Option::Some(s[i].1));
                    assert(s.contains((k, pairs_lookup(s, k).unwrap())));
                    let m = choose|m: int|
                        0 <= m < s.len() && s[m] == (k, pairs_lookup(s, k).unwrap());
                    assert(s[m].0.len() == 0);
                    assert(branch_val(s) == Option::Some(s[m].1));
                } else {
                    assert forall|i: int| 0 <= i < s.len() implies (#[trigger] s[i]).0.len() > 0 by {
                        if s[i].0.len() == 0 {
                            assert(s[i].0 =~= k);
                            assert(false);
                        }
                    };
                    assert(branch_val(s) is None);
                }
            } else {
                let c = k[0];
                let f = filt(s, c);
                lemma_filt_props(s, c);
                if f.len() > 0 {
                    lemma_total_klen_filt(s, c);
                    lemma_total_klen_strip(f, 1);
                    assert forall|i: int| 0 <= i < f.len() implies is_prefix(
                        seq![c],
                        (#[trigger] f[i]).0,
                    ) by {
                        assert(f[i].0.subrange(0, 1) =~= seq![f[i].0[0]]);
                    };
                    lemma_strip_distinct(f, 1, seq![c]);
                    lemma_resolve_is_lookup(strip(f, 1), k.skip(1));
                    assert(is_prefix(seq![c], k)) by {
                        assert(k.subrange(0, 1) =~= seq![k[0]]);
                    };
                    lemma_lookup_strip(f, k, seq![c]);
                    lemma_lookup_filt(s, c, k);
                } else {
                    lemma_pairs_lookup_key(s, k);
                    if pairs_lookup(s, k) is Some {
                        let i = choose|i: int| 0 <= i < s.len() && (#[trigger] s[i]).0 == k;
                        assert(s.contains(s[i]));
                        assert(s[i].0.len() > 0 && s[i].0[0] == c);
                        assert(f.contains(s[i]));
                        assert(false);
                    }
                }
            }
        }
    }
}

} // verus!
