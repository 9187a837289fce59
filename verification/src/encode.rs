use vstd::prelude::*;

use crate::builder::pairs_view;
use crate::hashing::digest_of;
use crate::shape::branch_val;
use crate::shape::child_digests;
use crate::shape::distinct_keys;
use crate::shape::enc_branch;
use crate::shape::enc_children;
use crate::shape::enc_empty;
use crate::shape::enc_ext;
use crate::shape::enc_leaf;
use crate::shape::enc_opt;
use crate::shape::enc_trie;
use crate::shape::filt;
use crate::shape::is_prefix;
use crate::shape::lcp2;
use crate::shape::lcp_all;
use crate::shape::lemma_child_digests_at;
use crate::shape::lemma_child_digests_len;
use crate::shape::lemma_filt_props;
use crate::shape::lemma_lcp_all_prefix;
use crate::shape::lemma_strip_distinct;
use crate::shape::lemma_total_klen_filt;
use crate::shape::lemma_total_klen_strip;
use crate::shape::strip;
use crate::shape::total_klen;
use crate::shape::u32le;
use crate::store::NodeStore;

verus! {

/// Entry bounds under which every serialized length fits in `u32` and no
/// index computation can overflow `usize`.
pub open spec fn enc_bounded(s: Seq<(Seq<u8>, Seq<u8>)>) -> bool {
    forall|i: int|
        0 <= i < s.len() ==> (#[trigger] s[i]).0.len() <= 0x7FFFFFFEint && s[i].1.len()
            <= 0xFFFFFFFEint
}

/// One map extends another without disturbing what was already there.
pub open spec fn submap_of(m1: Map<Seq<u8>, Seq<u8>>, m2: Map<Seq<u8>, Seq<u8>>) -> bool {
    forall|k: Seq<u8>| #[trigger] m1.dom().contains(k) ==> m2.dom().contains(k) && m2[k] == m1[k]
}

pub proof fn lemma_submap_trans(
    a: Map<Seq<u8>, Seq<u8>>,
    b: Map<Seq<u8>, Seq<u8>>,
    c: Map<Seq<u8>, Seq<u8>>,
)
    requires
        submap_of(a, b),
        submap_of(b, c),
    ensures
        submap_of(a, c),
{
    assert forall|k: Seq<u8>| #[trigger] a.dom().contains(k) implies c.dom().contains(k) && c[k]
        == a[k] by {
        assert(b.dom().contains(k) && b[k] == a[k]);
    };
}

/// What one `put` does to the store leaves every earlier entry in place.
pub proof fn lemma_submap_put(m1: Map<Seq<u8>, Seq<u8>>, m2: Map<Seq<u8>, Seq<u8>>, d: Seq<u8>, b: Seq<u8>)
    requires
        m2 == m1 || (!m1.contains_key(d) && m2 == m1.insert(d, b)),
    ensures
        submap_of(m1, m2),
{
}

fn push_u32le(out: &mut Vec<u8>, n: usize)
    requires
        n <= 0xFFFFFFFFusize,
    ensures
        final(out)@ == old(out)@ + u32le(n as int),
{
    out.push((n % 256) as u8);
    out.push((n / 256 % 256) as u8);
    out.push((n / 65536 % 256) as u8);
    out.push((n / 16777216 % 256) as u8);
    proof {
        assert(out@ =~= old(out)@ + u32le(n as int));
    }
}

fn push_bytes(out: &mut Vec<u8>, b: &Vec<u8>)
    ensures
        final(out)@ == old(out)@ + b@,
{
    let mut i: usize = 0;
    while i < b.len()
        invariant
            i <= b@.len(),
            out@ == old(out)@ + b@.subrange(0, i as int),
        decreases b@.len() - i,
    {
        out.push(b[i]);
        i = i + 1;
        proof {
            assert(old(out)@ + b@.subrange(0, i - 1) + seq![b@[i - 1]] =~= old(out)@ + b@.subrange(
                0,
                i as int,
            ));
        }
    }
    proof {
        assert(b@.subrange(0, b@.len() as int) =~= b@);
    }
}

pub(crate) fn tail_from(v: &Vec<u8>, n: usize) -> (r: Vec<u8>)
    requires
        n <= v@.len(),
    ensures
        r@ == v@.skip(n as int),
{
    let mut r: Vec<u8> = Vec::new();
    let mut i: usize = n;
    while i < v.len()
        invariant
            n <= i <= v@.len(),
            r@ == v@.subrange(n as int, i as int),
        decreases v@.len() - i,
    {
        r.push(v[i]);
        i = i + 1;
        proof {
            assert(v@.subrange(n as int, i - 1).push(v@[i - 1]) =~= v@.subrange(n as int, i as int));
        }
    }
    proof {
        assert(v@.subrange(n as int, v@.len() as int) =~= v@.skip(n as int));
    }
    r
}

proof fn lemma_lcp2_iter(a: Seq<u8>, b: Seq<u8>, i: int)
    requires
        0 <= i <= a.len(),
        i <= b.len(),
        forall|j: int| 0 <= j < i ==> a[j] == b[j],
    ensures
        lcp2(a, b) == a.subrange(0, i) + lcp2(a.skip(i), b.skip(i)),
    decreases i,
{
    if i == 0 {
        assert(a.skip(0) =~= a);
        assert(b.skip(0) =~= b);
        assert(a.subrange(0, 0) + lcp2(a, b) =~= lcp2(a, b));
    } else {
        assert(a[0] == b[0]);
        lemma_lcp2_iter(a.drop_first(), b.drop_first(), i - 1);
        assert(a.drop_first().skip(i - 1) =~= a.skip(i));
        assert(b.drop_first().skip(i - 1) =~= b.skip(i));
        assert(lcp2(a, b) == seq![a[0]] + lcp2(a.drop_first(), b.drop_first()));
        assert(seq![a[0]] + (a.drop_first().subrange(0, i - 1) + lcp2(a.skip(i), b.skip(i)))
            =~= a.subrange(0, i) + lcp2(a.skip(i), b.skip(i)));
    }
}

fn lcp_pair(a: &Vec<u8>, b: &Vec<u8>) -> (r: Vec<u8>)
    ensures
        r@ == lcp2(a@, b@),
{
    let n: usize = if a.len() < b.len() {
        a.len()
    } else {
        b.len()
    };
    let mut i: usize = 0;
    while i < n
        invariant
            i <= n,
            n <= a@.len(),
            n <= b@.len(),
            n == if a@.len() < b@.len() { a@.len() } else { b@.len() },
            forall|j: int| 0 <= j < i ==> a@[j] == b@[j],
        decreases n - i,
    {
        if a[i] != b[i] {
            proof {
                lemma_lcp2_iter(a@, b@, i as int);
                assert(lcp2(a@.skip(i as int), b@.skip(i as int)) =~= Seq::<u8>::empty());
                assert(a@.subrange(0, i as int) + Seq::<u8>::empty() =~= a@.subrange(0, i as int));
            }
            return tail_from_prefix(a, i);
        }
        i = i + 1;
    }
    proof {
        lemma_lcp2_iter(a@, b@, n as int);
        assert(lcp2(a@.skip(n as int), b@.skip(n as int)) =~= Seq::<u8>::empty());
        assert(a@.subrange(0, n as int) + Seq::<u8>::empty() =~= a@.subrange(0, n as int));
    }
    tail_from_prefix(a, n)
}

fn tail_from_prefix(v: &Vec<u8>, n: usize) -> (r: Vec<u8>)
    requires
        n <= v@.len(),
    ensures
        r@ == v@.subrange(0, n as int),
{
    let mut r: Vec<u8> = Vec::new();
    let mut i: usize = 0;
    while i < n
        invariant
            i <= n <= v@.len(),
            r@ == v@.subrange(0, i as int),
        decreases n - i,
    {
        r.push(v[i]);
        i = i + 1;
        proof {
            assert(v@.subrange(0, i - 1).push(v@[i - 1]) =~= v@.subrange(0, i as int));
        }
    }
    r
}

pub(crate) fn lcp_entries(es: &Vec<(Vec<u8>, Vec<u8>)>) -> (r: Vec<u8>)
    requires
        es@.len() >= 1,
    ensures
        r@ == lcp_all(pairs_view(es@)),
{
    let first = &es[0];
    let mut acc = tail_from(&first.0, 0);
    proof {
        assert(first.0@.skip(0) =~= first.0@);
        assert(pairs_view(es@).subrange(0, 1)[0] == pairs_view(es@)[0]);
        assert(acc@ == lcp_all(pairs_view(es@).subrange(0, 1)));
    }
    let mut i: usize = 1;
    while i < es.len()
        invariant
            1 <= i <= es@.len(),
            acc@ == lcp_all(pairs_view(es@).subrange(0, i as int)),
        decreases es@.len() - i,
    {
        let e = &es[i];
        acc = lcp_pair(&acc, &e.0);
        i = i + 1;
        proof {
            let v = pairs_view(es@);
            assert(v.subrange(0, i as int).drop_last() =~= v.subrange(0, i - 1));
            assert(v.subrange(0, i as int).last() == v[i - 1]);
            assert(v[i - 1].0 == es@[i - 1].0@);
            assert(acc@ == lcp_all(v.subrange(0, i as int)));
        }
    }
    proof {
        assert(pairs_view(es@).subrange(0, es@.len() as int) =~= pairs_view(es@));
    }
    acc
}

pub(crate) fn child_entries(es: &Vec<(Vec<u8>, Vec<u8>)>, c: u8) -> (r: Vec<(Vec<u8>, Vec<u8>)>)
    ensures
        pairs_view(r@) == strip(filt(pairs_view(es@), c), 1),
{
    let mut r: Vec<(Vec<u8>, Vec<u8>)> = Vec::new();
    let mut i: usize = 0;
    proof {
        assert(pairs_view(r@) =~= strip(filt(pairs_view(es@).subrange(0, 0), c), 1));
    }
    while i < es.len()
        invariant
            i <= es@.len(),
            pairs_view(r@) == strip(filt(pairs_view(es@).subrange(0, i as int), c), 1),
        decreases es@.len() - i,
    {
        let e = &es[i];
        proof {
            let v = pairs_view(es@);
            assert(v[i as int] == (es@[i as int].0@, es@[i as int].1@));
        }
        if e.0.len() > 0 && e.0[0] == c {
            let k = tail_from(&e.0, 1);
            let val = tail_from(&e.1, 0);
            proof {
                assert(val@ =~= e.1@);
            }
            r.push((k, val));
        }
        i = i + 1;
        proof {
            let v = pairs_view(es@);
            assert(v.subrange(0, i as int).drop_last() =~= v.subrange(0, i - 1));
            assert(v.subrange(0, i as int).last() == v[i - 1]);
            let f0 = filt(v.subrange(0, i - 1), c);
            let f1 = filt(v.subrange(0, i as int), c);
            if v[i - 1].0.len() > 0 && v[i - 1].0[0] == c {
                assert(f1 == f0.push(v[i - 1]));
                assert(strip(f1, 1) =~= strip(f0, 1).push((v[i - 1].0.skip(1), v[i - 1].1)));
                assert(pairs_view(r@) =~= strip(f1, 1));
            } else {
                assert(f1 == f0);
                assert(pairs_view(r@) =~= strip(f1, 1));
            }
        }
    }
    proof {
        assert(pairs_view(es@).subrange(0, es@.len() as int) =~= pairs_view(es@));
    }
    r
}

pub open spec fn opt_bytes_view(o: Option<Vec<u8>>) -> Option<Seq<u8>> {
    match o {
        Option::None => Option::None,
        Option::Some(v) => Option::Some(v@),
    }
}

pub(crate) proof fn lemma_branch_val(s: Seq<(Seq<u8>, Seq<u8>)>)
    requires
        distinct_keys(s),
    ensures
        (forall|i: int| 0 <= i < s.len() ==> (#[trigger] s[i]).0.len() > 0) ==> branch_val(s)
            == Option::<Seq<u8>>::None,
        forall|i: int|
            0 <= i < s.len() && (#[trigger] s[i]).0.len() == 0 ==> branch_val(s) == Option::Some(
                s[i].1,
            ),
    decreases s.len(),
{
    if s.len() > 0 {
        assert(distinct_keys(s.drop_last())) by {
            assert forall|i: int, j: int|
                0 <= i < j < s.drop_last().len() implies (#[trigger] s.drop_last()[i]).0 != (
            #[trigger] s.drop_last()[j]).0 by {
                assert(s.drop_last()[i] == s[i] && s.drop_last()[j] == s[j]);
            };
        };
        lemma_branch_val(s.drop_last());
        if s.last().0.len() == 0 {
            assert forall|i: int|
                0 <= i < s.len() && (#[trigger] s[i]).0.len() == 0 implies branch_val(s)
                == Option::Some(s[i].1) by {
                if i < s.len() - 1 {
                    assert(s[i].0 != s[s.len() - 1].0);
                    assert(s[i].0 =~= s[s.len() - 1].0);
                    assert(false);
                }
            };
        } else {
            assert forall|i: int|
                0 <= i < s.len() && (#[trigger] s[i]).0.len() == 0 implies branch_val(s)
                == Option::Some(s[i].1) by {
                assert(i < s.len() - 1);
                assert(s.drop_last()[i] == s[i]);
            };
            if forall|i: int| 0 <= i < s.len() ==> (#[trigger] s[i]).0.len() > 0 {
                assert forall|i: int|
                    0 <= i < s.drop_last().len() implies (#[trigger] s.drop_last()[i]).0.len()
                    > 0 by {
                    assert(s.drop_last()[i] == s[i]);
                };
            }
        }
    }
}

fn branch_value(es: &Vec<(Vec<u8>, Vec<u8>)>) -> (r: Option<Vec<u8>>)
    requires
        distinct_keys(pairs_view(es@)),
    ensures
        opt_bytes_view(r) == branch_val(pairs_view(es@)),
{
    proof {
        lemma_branch_val(pairs_view(es@));
    }
    let mut i: usize = 0;
    while i < es.len()
        invariant
            i <= es@.len(),
            distinct_keys(pairs_view(es@)),
            forall|j: int| 0 <= j < i ==> (#[trigger] pairs_view(es@)[j]).0.len() > 0,
        decreases es@.len() - i,
    {
        let e = &es[i];
        proof {
            assert(pairs_view(es@)[i as int].0 == es@[i as int].0@);
        }
        if e.0.len() == 0 {
            let v = tail_from(&e.1, 0);
            proof {
                lemma_branch_val(pairs_view(es@));
                assert(v@ =~= e.1@);
            }
            return Some(v);
        }
        i = i + 1;
    }
    proof {
        lemma_branch_val(pairs_view(es@));
    }
    None
}

/// Serializes the trie over `es` (keys in nibble form), storing every
/// descendant node's encoding in the node store, and returns this node's
/// canonical encoding. The caller stores the returned encoding itself.
#[verifier::rlimit(100)]
pub(crate) fn encode_node(es: &Vec<(Vec<u8>, Vec<u8>)>, store: &mut NodeStore) -> (r: Vec<u8>)
    requires
        distinct_keys(pairs_view(es@)),
        enc_bounded(pairs_view(es@)),
    ensures
        r@ == enc_trie(pairs_view(es@)),
        submap_of(old(store).contents(), final(store).contents()),
    decreases total_klen(pairs_view(es@)), pairs_view(es@).len(), 17int,
{
    let ghost v = pairs_view(es@);
    if es.len() == 0 {
        let mut out: Vec<u8> = Vec::new();
        out.push(0u8);
        proof {
            assert(out@ =~= enc_empty());
        }
        return out;
    }
    if es.len() == 1 {
        let e = &es[0];
        proof {
            assert(v[0] == (es@[0].0@, es@[0].1@));
        }
        let mut out: Vec<u8> = Vec::new();
        out.push(1u8);
        push_u32le(&mut out, e.0.len());
        push_bytes(&mut out, &e.0);
        push_u32le(&mut out, e.1.len());
        push_bytes(&mut out, &e.1);
        proof {
            assert(out@ =~= enc_leaf(v[0].0, v[0].1));
        }
        return out;
    }
    let p = lcp_entries(es);
    if p.len() > 0 {
        proof {
            lemma_lcp_all_prefix(v);
            lemma_total_klen_strip(v, p@.len() as int);
            assert(v.len() * p@.len() >= 2 * 1) by (nonlinear_arith)
                requires
                    v.len() >= 2,
                    p@.len() >= 1,
            ;
            lemma_strip_distinct(v, p@.len() as int, p@);
        }
        let child = strip_entries(es, p.len());
        let ce = encode_node(&child, store);
        let ghost m1 = store.contents();
        let cd = store.put(ce);
        proof {
            lemma_submap_put(m1, store.contents(), digest_of(ce@), ce@);
            lemma_submap_trans(old(store).contents(), m1, store.contents());
        }
        let mut out: Vec<u8> = Vec::new();
        out.push(2u8);
        push_u32le(&mut out, p.len());
        push_bytes(&mut out, &p);
        push_u32le(&mut out, cd.len());
        push_bytes(&mut out, &cd);
        proof {
            assert(out@ =~= enc_ext(p@, cd@));
        }
        return out;
    }
    // Branch: one child per first nibble, plus the value ending here.
    let mut out: Vec<u8> = Vec::new();
    out.push(3u8);
    let ghost orig = store.contents();
    proof {
        assert(out@ =~= seq![3u8] + enc_children(child_digests(v, 0), 0));
    }
    let mut c: u8 = 0;
    while c < 16
        invariant
            c <= 16,
            pairs_view(es@) == v,
            distinct_keys(v),
            enc_bounded(v),
            v.len() >= 2,
            lcp_all(v).len() == 0,
            out@ == seq![3u8] + enc_children(child_digests(v, 0), c as int),
            submap_of(orig, store.contents()),
        decreases 16 - c,
    {
        let ces = child_entries(es, c);
        proof {
            lemma_child_digests_len(v, 0);
            lemma_child_digests_at(v, 0, c as int);
            lemma_filt_props(v, c);
            lemma_total_klen_filt(v, c);
        }
        if ces.len() > 0 {
            proof {
                let f = filt(v, c);
                lemma_total_klen_strip(f, 1);
                lemma_strip_distinct_one(f, c);
                assert forall|m: int|
                    0 <= m < strip(f, 1).len() implies (#[trigger] strip(f, 1)[m]).0.len()
                    <= 0x7FFFFFFEint && strip(f, 1)[m].1.len() <= 0xFFFFFFFEint by {
                    assert(v.contains(f[m]));
                    let w = choose|w: int| 0 <= w < v.len() && v[w] == f[m];
                    assert(v[w].0.len() <= 0x7FFFFFFEint);
                };
            }
            let ghost m0 = store.contents();
            let ce = encode_node(&ces, store);
            let ghost m1 = store.contents();
            let cd = store.put(ce);
            proof {
                lemma_submap_put(m1, store.contents(), digest_of(ce@), ce@);
                lemma_submap_trans(m0, m1, store.contents());
                lemma_submap_trans(orig, m0, store.contents());
            }
            out.push(1u8);
            push_u32le(&mut out, cd.len());
            push_bytes(&mut out, &cd);
            proof {
                let cs = child_digests(v, 0);
                assert(cs[c as int] == Option::Some(cd@));
                assert(enc_children(cs, c + 1) == enc_children(cs, c as int) + enc_opt(
                    cs[c as int],
                ));
                assert(out@ =~= seq![3u8] + enc_children(cs, c + 1));
            }
        } else {
            out.push(0u8);
            proof {
                let cs = child_digests(v, 0);
                assert(filt(v, c).len() == strip(filt(v, c), 1).len());
                assert(cs[c as int] == Option::<Seq<u8>>::None);
                assert(enc_children(cs, c + 1) == enc_children(cs, c as int) + enc_opt(
                    cs[c as int],
                ));
                assert(out@ =~= seq![3u8] + enc_children(cs, c + 1));
            }
        }
        c = c + 1;
    }
    let bv = branch_value(es);
    match bv {
        Some(val) => {
            proof {
                lemma_branch_val_bounded(v);
                assert(val@ == branch_val(v).unwrap());
            }
            out.push(1u8);
            push_u32le(&mut out, val.len());
            push_bytes(&mut out, &val);
            proof {
                assert(out@ =~= enc_branch(child_digests(v, 0), branch_val(v)));
            }
        },
        None => {
            out.push(0u8);
            proof {
                assert(out@ =~= enc_branch(child_digests(v, 0), branch_val(v)));
            }
        },
    }
    out
}

proof fn lemma_strip_distinct_one(f: Seq<(Seq<u8>, Seq<u8>)>, c: u8)
    requires
        distinct_keys(f),
        forall|i: int| 0 <= i < f.len() ==> (#[trigger] f[i]).0.len() > 0 && f[i].0[0] == c,
    ensures
        distinct_keys(strip(f, 1)),
{
    assert forall|i: int| 0 <= i < f.len() implies is_prefix(seq![c], (#[trigger] f[i]).0) by {
        assert(f[i].0.subrange(0, 1) =~= seq![f[i].0[0]]);
    };
    lemma_strip_distinct(f, 1, seq![c]);
}

pub(crate) proof fn lemma_branch_val_bounded(s: Seq<(Seq<u8>, Seq<u8>)>)
    requires
        enc_bounded(s),
        branch_val(s) is Some,
    ensures
        branch_val(s).unwrap().len() <= 0xFFFFFFFEint,
    decreases s.len(),
{
    if s.len() > 0 {
        if s.last().0.len() == 0 {
            assert(s[s.len() - 1].1.len() <= 0xFFFFFFFEint);
        } else {
            assert forall|i: int|
                0 <= i < s.drop_last().len() implies (#[trigger] s.drop_last()[i]).0.len()
                <= 0x7FFFFFFEint && s.drop_last()[i].1.len() <= 0xFFFFFFFEint by {
                assert(s.drop_last()[i] == s[i]);
            };
            lemma_branch_val_bounded(s.drop_last());
        }
    }
}

pub(crate) fn strip_entries(es: &Vec<(Vec<u8>, Vec<u8>)>, n: usize) -> (r: Vec<(Vec<u8>, Vec<u8>)>)
    requires
        forall|i: int| 0 <= i < pairs_view(es@).len() ==> (#[trigger] pairs_view(es@)[i]).0.len()
            >= n,
    ensures
        pairs_view(r@) == strip(pairs_view(es@), n as int),
{
    let mut r: Vec<(Vec<u8>, Vec<u8>)> = Vec::new();
    let mut i: usize = 0;
    while i < es.len()
        invariant
            i <= es@.len(),
            r@.len() == i,
            forall|j: int| 0 <= j < pairs_view(es@).len() ==> (#[trigger] pairs_view(
                es@,
            )[j]).0.len() >= n,
            forall|j: int|
                0 <= j < i ==> #[trigger] pairs_view(r@)[j] == (
                    pairs_view(es@)[j].0.skip(n as int),
                    pairs_view(es@)[j].1,
                ),
        decreases es@.len() - i,
    {
        let e = &es[i];
        proof {
            assert(pairs_view(es@)[i as int] == (es@[i as int].0@, es@[i as int].1@));
        }
        let k = tail_from(&e.0, n);
        let val = tail_from(&e.1, 0);
        proof {
            assert(val@ =~= e.1@);
        }
        let ghost r0 = r@;
        r.push((k, val));
        i = i + 1;
        proof {
            assert(pairs_view(r@)[i - 1] == (k@, val@));
            assert forall|j: int| 0 <= j < i - 1 implies #[trigger] pairs_view(r@)[j]
                == pairs_view(r0)[j] by {
                assert(r@[j] == r0[j]);
            };
        }
    }
    proof {
        assert(pairs_view(r@) =~= strip(pairs_view(es@), n as int));
    }
    r
}

} // verus!
