use vstd::prelude::*;

use crate::builder::bounded_entries;
use crate::builder::sorted_strict;
use crate::encode::enc_bounded;
use crate::hashing::digest_of;
use crate::keys::lemma_nibbles_valid;
use crate::keys::spec_nibbles;
use crate::resolve::lemma_resolve_is_lookup;
use crate::shape::branch_val;
use crate::shape::child_digests;
use crate::shape::distinct_keys;
use crate::shape::enc_trie;
use crate::shape::filt;
use crate::shape::is_prefix;
use crate::shape::lcp_all;
use crate::shape::lemma_child_digests_at;
use crate::shape::lemma_child_digests_len;
use crate::shape::lemma_dedup_distinct;
use crate::shape::lemma_filt_props;
use crate::shape::lemma_lcp_all_prefix;
use crate::shape::lemma_strip_distinct;
use crate::shape::lemma_total_klen_filt;
use crate::shape::lemma_total_klen_strip;
use crate::shape::pairs_lookup;
use crate::shape::spec_prove;
use crate::shape::spec_resolve;
use crate::shape::spec_walk;
use crate::shape::strip;
use crate::shape::total_klen;
use crate::shape::walk_many;
use crate::trie::nib_entries;
use crate::trie::spec_root;
use crate::verify::blob_index;
use crate::verify::spec_check_one;
use crate::verify::spec_descend;
use crate::verify::spec_verify;
use crate::verify::VerifyError;
use crate::shape::enc_branch;
use crate::shape::enc_children;
use crate::shape::enc_empty;
use crate::shape::enc_ext;
use crate::shape::enc_leaf;
use crate::shape::enc_opt;
use crate::shape::u32le;
use crate::verify::parse_children;
use crate::verify::parse_opt;
use crate::verify::read_u32;
use crate::verify::spec_decode;
use crate::verify::SpecNode;

verus! {

proof fn lemma_read_u32le(b: Seq<u8>, pos: int, n: int)
    requires
        0 <= pos,
        pos + 4 <= b.len(),
        b.subrange(pos, pos + 4) == u32le(n),
        0 <= n < 0x100000000,
    ensures
        read_u32(b, pos) == n,
{
    assert(b[pos] == u32le(n)[0]) by {
        assert(b.subrange(pos, pos + 4)[0] == b[pos]);
    };
    assert(b[pos + 1] == u32le(n)[1]) by {
        assert(b.subrange(pos, pos + 4)[1] == b[pos + 1]);
    };
    assert(b[pos + 2] == u32le(n)[2]) by {
        assert(b.subrange(pos, pos + 4)[2] == b[pos + 2]);
    };
    assert(b[pos + 3] == u32le(n)[3]) by {
        assert(b.subrange(pos, pos + 4)[3] == b[pos + 3]);
    };
    assert(n / 16777216 % 256 == n / 16777216);
    assert(n == n % 256 + 256 * (n / 256 % 256) + 65536 * (n / 65536 % 256) + 16777216 * (n
        / 16777216));
}

proof fn lemma_decode_empty()
    ensures
        spec_decode(enc_empty()) == Option::Some(SpecNode::Empty),
{
    assert(enc_empty()[0] == 0);
}

proof fn lemma_decode_leaf(k: Seq<u8>, v: Seq<u8>)
    requires
        k.len() < 0x100000000,
        v.len() < 0x100000000,
    ensures
        spec_decode(enc_leaf(k, v)) == Option::Some(SpecNode::Leaf { key: k, value: v }),
{
    let b = enc_leaf(k, v);
    let kl = k.len() as int;
    let vl = v.len() as int;
    assert(b.len() == 9 + kl + vl);
    assert(b[0] == 1);
    assert(b.subrange(1, 5) =~= u32le(kl));
    lemma_read_u32le(b, 1, kl);
    assert(b.subrange(5, 5 + kl) =~= k);
    assert(b.subrange(5 + kl, 9 + kl) =~= u32le(vl));
    lemma_read_u32le(b, 5 + kl, vl);
    assert(b.subrange(9 + kl, 9 + kl + vl) =~= v);
}

proof fn lemma_decode_ext(p: Seq<u8>, d: Seq<u8>)
    requires
        1 <= p.len() < 0x100000000,
        d.len() < 0x100000000,
    ensures
        spec_decode(enc_ext(p, d)) == Option::Some(SpecNode::Ext { prefix: p, child: d }),
{
    let b = enc_ext(p, d);
    let pl = p.len() as int;
    let dl = d.len() as int;
    assert(b.len() == 9 + pl + dl);
    assert(b[0] == 2);
    assert(b.subrange(1, 5) =~= u32le(pl));
    lemma_read_u32le(b, 1, pl);
    assert(b.subrange(5, 5 + pl) =~= p);
    assert(b.subrange(5 + pl, 9 + pl) =~= u32le(dl));
    lemma_read_u32le(b, 5 + pl, dl);
    assert(b.subrange(9 + pl, 9 + pl + dl) =~= d);
}

/// The encodings of the child slots from `i` on.
spec fn enc_children_from(cs: Seq<Option<Seq<u8>>>, i: int) -> Seq<u8>
    decreases 16 - i,
{
    if i >= 16 {
        Seq::empty()
    } else {
        enc_opt(cs[i]) + enc_children_from(cs, i + 1)
    }
}

proof fn lemma_enc_children_split(cs: Seq<Option<Seq<u8>>>, i: int)
    requires
        0 <= i <= 16,
    ensures
        enc_children(cs, 16) == enc_children(cs, i) + enc_children_from(cs, i),
    decreases 16 - i,
{
    if i == 16 {
        assert(enc_children(cs, 16) + Seq::<u8>::empty() =~= enc_children(cs, 16));
    } else {
        lemma_enc_children_split(cs, i + 1);
        assert(enc_children(cs, i + 1) == enc_children(cs, i) + enc_opt(cs[i]));
        assert((enc_children(cs, i) + enc_opt(cs[i])) + enc_children_from(cs, i + 1)
            =~= enc_children(cs, i) + (enc_opt(cs[i]) + enc_children_from(cs, i + 1)));
    }
}

spec fn opt_len_ok(o: Option<Seq<u8>>) -> bool {
    match o {
        Option::None => true,
        Option::Some(x) => x.len() < 0x100000000,
    }
}

proof fn lemma_parse_opt_at(b: Seq<u8>, pos: int, o: Option<Seq<u8>>)
    requires
        0 <= pos,
        pos + enc_opt(o).len() <= b.len(),
        b.subrange(pos, pos + enc_opt(o).len() as int) == enc_opt(o),
        opt_len_ok(o),
    ensures
        parse_opt(b, pos) == Option::Some((o, pos + enc_opt(o).len())),
{
    let e = enc_opt(o);
    assert(b[pos] == e[0]) by {
        assert(b.subrange(pos, pos + e.len() as int)[0] == b[pos]);
    };
    match o {
        Option::None => {
            assert(e[0] == 0);
        },
        Option::Some(x) => {
            let l = x.len() as int;
            assert(e[0] == 1);
            assert(b[pos] == 1);
            assert(b.subrange(pos + 1, pos + 5) =~= u32le(l)) by {
                assert forall|m: int| 0 <= m < 4 implies b.subrange(pos + 1, pos + 5)[m] == u32le(
                    l,
                )[m] by {
                    assert(b.subrange(pos, pos + e.len() as int)[m + 1] == b[pos + 1 + m]);
                    assert(e[m + 1] == u32le(l)[m]);
                };
            };
            lemma_read_u32le(b, pos + 1, l);
            assert(b.subrange(pos + 5, pos + 5 + l) =~= x) by {
                assert forall|m: int| 0 <= m < l implies b.subrange(pos + 5, pos + 5 + l)[m]
                    == x[m] by {
                    assert(b.subrange(pos, pos + e.len() as int)[m + 5] == b[pos + 5 + m]);
                    assert(e[m + 5] == x[m]);
                };
            };
        },
    }
}

spec fn children_len_ok(cs: Seq<Option<Seq<u8>>>) -> bool {
    forall|i: int| 0 <= i < cs.len() ==> opt_len_ok(#[trigger] cs[i])
}

proof fn lemma_parse_children_at(b: Seq<u8>, cs: Seq<Option<Seq<u8>>>, i: int, pos: int)
    requires
        cs.len() == 16,
        children_len_ok(cs),
        0 <= i <= 16,
        0 <= pos,
        pos + enc_children_from(cs, i).len() <= b.len(),
        b.subrange(pos, pos + enc_children_from(cs, i).len() as int) == enc_children_from(cs, i),
    ensures
        parse_children(b, pos, i) == Option::Some(
            (cs.skip(i), pos + enc_children_from(cs, i).len()),
        ),
    decreases 16 - i,
{
    if i >= 16 {
        assert(cs.skip(16) =~= Seq::<Option<Seq<u8>>>::empty());
    } else {
        let e0 = enc_opt(cs[i]);
        let rest = enc_children_from(cs, i + 1);
        assert(enc_children_from(cs, i) == e0 + rest);
        assert(b.subrange(pos, pos + e0.len() as int) =~= e0) by {
            assert forall|m: int| 0 <= m < e0.len() implies b.subrange(
                pos,
                pos + e0.len() as int,
            )[m] == e0[m] by {
                assert(b.subrange(pos, pos + enc_children_from(cs, i).len() as int)[m] == b[pos
                    + m]);
                assert((e0 + rest)[m] == e0[m]);
            };
        };
        lemma_parse_opt_at(b, pos, cs[i]);
        let p2 = pos + e0.len() as int;
        assert(b.subrange(p2, p2 + rest.len() as int) =~= rest) by {
            assert forall|m: int| 0 <= m < rest.len() implies b.subrange(
                p2,
                p2 + rest.len() as int,
            )[m] == rest[m] by {
                assert(b.subrange(pos, pos + enc_children_from(cs, i).len() as int)[e0.len() + m]
                    == b[p2 + m]);
                assert((e0 + rest)[e0.len() + m] == rest[m]);
            };
        };
        lemma_parse_children_at(b, cs, i + 1, p2);
        assert(seq![cs[i]] + cs.skip(i + 1) =~= cs.skip(i));
    }
}

proof fn lemma_decode_branch(cs: Seq<Option<Seq<u8>>>, bv: Option<Seq<u8>>)
    requires
        cs.len() == 16,
        children_len_ok(cs),
        opt_len_ok(bv),
    ensures
        spec_decode(enc_branch(cs, bv)) == Option::Some(
            SpecNode::Branch { children: cs, value: bv },
        ),
{
    let b = enc_branch(cs, bv);
    let ch = enc_children(cs, 16);
    lemma_enc_children_split(cs, 0);
    assert(ch == enc_children(cs, 0) + enc_children_from(cs, 0));
    assert(enc_children(cs, 0) =~= Seq::<u8>::empty());
    assert(ch =~= enc_children_from(cs, 0));
    assert(b[0] == 3);
    assert(b.subrange(1, 1 + ch.len() as int) =~= ch) by {
        assert forall|m: int| 0 <= m < ch.len() implies b.subrange(1, 1 + ch.len() as int)[m]
            == ch[m] by {
            assert(b[1 + m] == (seq![3u8] + ch + enc_opt(bv))[1 + m]);
        };
    };
    lemma_parse_children_at(b, cs, 0, 1);
    assert(cs.skip(0) =~= cs);
    let p = 1 + ch.len() as int;
    assert(b.subrange(p, p + enc_opt(bv).len() as int) =~= enc_opt(bv)) by {
        assert forall|m: int| 0 <= m < enc_opt(bv).len() implies b.subrange(
            p,
            p + enc_opt(bv).len() as int,
        )[m] == enc_opt(bv)[m] by {
            assert(b[p + m] == (seq![3u8] + ch + enc_opt(bv))[p + m]);
        };
    };
    lemma_parse_opt_at(b, p, bv);
    assert(p + enc_opt(bv).len() == b.len());
}

/// Every nibble of every key is below the branching factor.
pub open spec fn valid_nibs(s: Seq<(Seq<u8>, Seq<u8>)>) -> bool {
    forall|i: int, j: int|
        0 <= i < s.len() && 0 <= j < s[i].0.len() ==> #[trigger] s[i].0[j] < 16
}

/// No two distinct blobs of the set share a digest. Holds of a
/// collision-resistant hash on any set that arises in practice; the
/// verifier's digest indexing rests on it.
pub open spec fn injective_digests(bs: Seq<Seq<u8>>) -> bool {
    forall|b1: Seq<u8>, b2: Seq<u8>|
        bs.contains(b1) && bs.contains(b2) && #[trigger] digest_of(b1) == #[trigger] digest_of(b2)
            ==> b1 == b2
}

spec fn covered(index: Map<Seq<u8>, Seq<u8>>, ws: Seq<Seq<u8>>) -> bool {
    forall|b: Seq<u8>|
        ws.contains(b) ==> index.dom().contains(#[trigger] digest_of(b)) && index[digest_of(b)]
            == b
}

/// Replaying a descent inside any node map that supplies every node the
/// walk visits, each under its own digest, ends exactly where the
/// structural descent over the entries ends.
proof fn lemma_descend_walk(
    index: Map<Seq<u8>, Seq<u8>>,
    s: Seq<(Seq<u8>, Seq<u8>)>,
    k: Seq<u8>,
)
    requires
        distinct_keys(s),
        enc_bounded(s),
        valid_nibs(s),
        forall|x: Seq<u8>| (#[trigger] digest_of(x)).len() == 32,
        covered(index, spec_walk(s, k)),
    ensures
        spec_descend(index, digest_of(enc_trie(s)), k) == Result::<
            Option<Seq<u8>>,
            VerifyError,
        >::Ok(spec_resolve(s, k)),
    decreases total_klen(s), s.len(),
{
    let w = spec_walk(s, k);
    let b0 = enc_trie(s);
    assert(w[0] == b0);
    assert(w.contains(b0));
    let d0 = digest_of(b0);
    assert(index.dom().contains(d0) && index[d0] == b0);
    if s.len() == 0 {
        lemma_decode_empty();
    } else if s.len() == 1 {
        lemma_decode_leaf(s[0].0, s[0].1);
    } else {
        let p = lcp_all(s);
        lemma_lcp_all_prefix(s);
        if p.len() > 0 {
            lemma_total_klen_strip(s, p.len() as int);
            assert(s.len() * p.len() >= 2 * 1) by (nonlinear_arith)
                requires
                    s.len() >= 2,
                    p.len() >= 1,
            ;
            let child = strip(s, p.len() as int);
            let cd = digest_of(enc_trie(child));
            assert(p.len() <= s[0].0.len());
            lemma_decode_ext(p, cd);
            if is_prefix(p, k) {
                lemma_strip_distinct(s, p.len() as int, p);
                assert(valid_nibs(child)) by {
                    assert forall|i: int, j: int|
                        0 <= i < child.len() && 0 <= j < child[i].0.len() implies #[trigger] child[i].0[j]
                        < 16 by {
                        assert(child[i].0[j] == s[i].0[j + p.len()]);
                    };
                };
                assert(enc_bounded(child)) by {
                    assert forall|i: int|
                        0 <= i < child.len() implies (#[trigger] child[i]).0.len()
                        <= 0x7FFFFFFEint && child[i].1.len() <= 0xFFFFFFFEint by {
                        assert(s[i].0.len() <= 0x7FFFFFFEint && s[i].1.len() <= 0xFFFFFFFEint);
                    };
                };
                let cw = spec_walk(child, k.skip(p.len() as int));
                assert(w == seq![b0] + cw);
                assert(covered(index, cw)) by {
                    assert forall|b: Seq<u8>| cw.contains(b) implies index.dom().contains(
                        #[trigger] digest_of(b),
                    ) && index[digest_of(b)] == b by {
                        let m = choose|m: int| 0 <= m < cw.len() && cw[m] == b;
                        assert(w[m + 1] == b);
                        assert(w.contains(b));
                    };
                };
                lemma_descend_walk(index, child, k.skip(p.len() as int));
            }
        } else {
            lemma_child_digests_len(s, 0);
            let cs = child_digests(s, 0);
            assert(children_len_ok(cs)) by {
                assert forall|i: int| 0 <= i < cs.len() implies opt_len_ok(#[trigger] cs[i]) by {
                    lemma_child_digests_at(s, 0, i);
                };
            };
            assert(opt_len_ok(branch_val(s))) by {
                if branch_val(s) is Some {
                    crate::encode::lemma_branch_val_bounded(s);
                }
            };
            lemma_decode_branch(cs, branch_val(s));
            if k.len() == 0 {
            } else {
                let c = k[0];
                let ci = c as int;
                lemma_filt_props(s, c);
                let f = filt(s, c);
                if ci >= 16 {
                    if f.len() > 0 {
                        assert(f[0].0[0] == c);
                        assert(s.contains(f[0]));
                        let m = choose|m: int| 0 <= m < s.len() && s[m] == f[0];
                        assert(s[m].0[0] < 16);
                        assert(false);
                    }
                } else {
                    lemma_child_digests_at(s, 0, ci);
                    if f.len() > 0 {
                        lemma_total_klen_filt(s, c);
                        lemma_total_klen_strip(f, 1);
                        assert forall|i: int| 0 <= i < f.len() implies is_prefix(
                            seq![c],
                            (#[trigger] f[i]).0,
                        ) by {
                            assert(f[i].0.subrange(0, 1) =~= seq![f[i].0[0]]);
                        };
                        lemma_strip_distinct(f, 1, seq![c]);
                        let child = strip(f, 1);
                        assert(valid_nibs(child) && enc_bounded(child)) by {
                            assert forall|i: int|
                                0 <= i < child.len() implies (#[trigger] child[i]).0.len()
                                <= 0x7FFFFFFEint && child[i].1.len() <= 0xFFFFFFFEint && (
                            forall|j: int|
                                0 <= j < child[i].0.len() ==> #[trigger] child[i].0[j] < 16) by {
                                assert(s.contains(f[i]));
                                let m = choose|m: int| 0 <= m < s.len() && s[m] == f[i];
                                assert(s[m].0.len() <= 0x7FFFFFFEint && s[m].1.len()
                                    <= 0xFFFFFFFEint);
                                assert forall|j: int|
                                    0 <= j < child[i].0.len() implies #[trigger] child[i].0[j]
                                    < 16 by {
                                    assert(child[i].0[j] == f[i].0[j + 1]);
                                    assert(f[i].0[j + 1] == s[m].0[j + 1]);
                                    assert(s[m].0[j + 1] < 16);
                                };
                            };
                        };
                        let cw = spec_walk(child, k.skip(1));
                        assert(w == seq![b0] + cw);
                        assert(covered(index, cw)) by {
                            assert forall|b: Seq<u8>| cw.contains(b) implies index.dom().contains(
                                #[trigger] digest_of(b),
                            ) && index[digest_of(b)] == b by {
                                let m = choose|m: int| 0 <= m < cw.len() && cw[m] == b;
                                assert(w[m + 1] == b);
                                assert(w.contains(b));
                            };
                        };
                        lemma_descend_walk(index, child, k.skip(1));
                    }
                }
            }
        }
    }
}

/// The index a proof builds holds every proof blob under its digest,
/// provided no two distinct blobs collide.
proof fn lemma_blob_index_covered(bs: Seq<Seq<u8>>)
    requires
        injective_digests(bs),
    ensures
        covered(blob_index(bs), bs),
        forall|d: Seq<u8>| blob_index(bs).dom().contains(d) ==> exists|i: int|
            0 <= i < bs.len() && digest_of(#[trigger] bs[i]) == d && blob_index(bs)[d] == bs[i],
    decreases bs.len(),
{
    if bs.len() > 0 {
        let pre = bs.drop_last();
        assert(injective_digests(pre)) by {
            assert forall|b1: Seq<u8>, b2: Seq<u8>|
                pre.contains(b1) && pre.contains(b2) && #[trigger] digest_of(b1)
                    == #[trigger] digest_of(b2) implies b1 == b2 by {
                let i = choose|i: int| 0 <= i < pre.len() && pre[i] == b1;
                let j = choose|j: int| 0 <= j < pre.len() && pre[j] == b2;
                assert(bs[i] == b1 && bs[j] == b2);
                assert(bs.contains(b1) && bs.contains(b2));
            };
        };
        lemma_blob_index_covered(pre);
        let m = blob_index(pre);
        let last = bs.last();
        let d = digest_of(last);
        assert(bs[bs.len() - 1] == last);
        assert(bs.contains(last));
        if m.contains_key(d) {
            let i = choose|i: int|
                0 <= i < pre.len() && digest_of(#[trigger] pre[i]) == d && m[d] == pre[i];
            assert(bs[i] == pre[i]);
            assert(bs.contains(pre[i]));
            assert(pre[i] == last);
            assert(blob_index(bs) == m);
            assert forall|b: Seq<u8>| bs.contains(b) implies blob_index(bs).dom().contains(
                #[trigger] digest_of(b),
            ) && blob_index(bs)[digest_of(b)] == b by {
                let w = choose|w: int| 0 <= w < bs.len() && bs[w] == b;
                if w < bs.len() - 1 {
                    assert(pre[w] == b);
                    assert(pre.contains(b));
                } else {
                    assert(b == last);
                    assert(m[d] == last);
                }
            };
            assert forall|dd: Seq<u8>| blob_index(bs).dom().contains(dd) implies exists|i2: int|
                0 <= i2 < bs.len() && digest_of(#[trigger] bs[i2]) == dd && blob_index(bs)[dd]
                    == bs[i2] by {
                let i2 = choose|i2: int|
                    0 <= i2 < pre.len() && digest_of(#[trigger] pre[i2]) == dd && m[dd] == pre[i2];
                assert(digest_of(bs[i2]) == dd && blob_index(bs)[dd] == bs[i2]);
            };
        } else {
            assert(blob_index(bs) == m.insert(d, last));
            assert forall|b: Seq<u8>| bs.contains(b) implies blob_index(bs).dom().contains(
                #[trigger] digest_of(b),
            ) && blob_index(bs)[digest_of(b)] == b by {
                let w = choose|w: int| 0 <= w < bs.len() && bs[w] == b;
                if w < bs.len() - 1 {
                    assert(pre[w] == b);
                    assert(pre.contains(b));
                    if digest_of(b) == d {
                        assert(m.dom().contains(d));
                        assert(false);
                    }
                } else {
                    assert(b == last);
                }
            };
            assert forall|dd: Seq<u8>| blob_index(bs).dom().contains(dd) implies exists|i2: int|
                0 <= i2 < bs.len() && digest_of(#[trigger] bs[i2]) == dd && blob_index(bs)[dd]
                    == bs[i2] by {
                if dd == d {
                    assert(digest_of(bs[bs.len() - 1]) == dd && blob_index(bs)[dd] == bs[bs.len()
                        - 1]);
                } else {
                    let i2 = choose|i2: int|
                        0 <= i2 < pre.len() && digest_of(#[trigger] pre[i2]) == dd && m[dd]
                            == pre[i2];
                    assert(digest_of(bs[i2]) == dd && blob_index(bs)[dd] == bs[i2]);
                }
            };
        }
    }
}

/// Nibble expansion changes no lookup: a byte key resolves among the
/// nibble entries exactly as among the byte entries.
proof fn lemma_lookup_nibbles(e: Seq<(Seq<u8>, Seq<u8>)>, k: Seq<u8>)
    ensures
        pairs_lookup(nib_entries(e), spec_nibbles(k)) == pairs_lookup(e, k),
    decreases e.len(),
{
    if e.len() > 0 {
        lemma_lookup_nibbles(e.drop_last(), k);
        assert(nib_entries(e).drop_last() =~= nib_entries(e.drop_last()));
        assert(nib_entries(e).last() == (spec_nibbles(e.last().0), e.last().1));
        if spec_nibbles(e.last().0) == spec_nibbles(k) {
            crate::keys::lemma_nibbles_injective(e.last().0, k);
        }
    }
}

pub open spec fn expected_asserts(e: Seq<(Seq<u8>, Seq<u8>)>, ks: Seq<Seq<u8>>) -> Seq<
    (Seq<u8>, Option<Seq<u8>>),
> {
    Seq::new(ks.len(), |i: int| (ks[i], pairs_lookup(e, ks[i])))
}

proof fn lemma_verify_all(
    root: Seq<u8>,
    blobs: Seq<Seq<u8>>,
    asserts: Seq<(Seq<u8>, Option<Seq<u8>>)>,
)
    requires
        forall|j: int|
            0 <= j < asserts.len() ==> spec_check_one(
                blob_index(blobs),
                root,
                (#[trigger] asserts[j]).0,
                asserts[j].1,
            ) == Result::<(), VerifyError>::Ok(()),
    ensures
        spec_verify(root, blobs, asserts) == Result::<(), VerifyError>::Ok(()),
    decreases asserts.len(),
{
    if asserts.len() > 0 {
        assert(spec_check_one(blob_index(blobs), root, asserts[0].0, asserts[0].1)
            == Result::<(), VerifyError>::Ok(()));
        assert forall|j: int|
            0 <= j < asserts.drop_first().len() implies spec_check_one(
            blob_index(blobs),
            root,
            (#[trigger] asserts.drop_first()[j]).0,
            asserts.drop_first()[j].1,
        ) == Result::<(), VerifyError>::Ok(()) by {
            assert(asserts.drop_first()[j] == asserts[j + 1]);
        };
        lemma_verify_all(root, blobs, asserts.drop_first());
    }
}

/// Inclusion and exclusion proofs verify: for a committed record set and
/// any requested keys, verifying the generated proof against the root
/// succeeds when each key is asserted to resolve exactly as the record
/// set resolves it — to its committed value if present, to absence if
/// not. Assumes the digest is 32 bytes wide and collision-free across
/// the blobs this one proof carries; both hold of the Blake2b-256 hash
/// in any run that does not exhibit a hash collision.
pub proof fn lemma_prove_then_verify(e: Seq<(Seq<u8>, Seq<u8>)>, ks: Seq<Seq<u8>>)
    requires
        sorted_strict(e),
        bounded_entries(e),
        forall|x: Seq<u8>| (#[trigger] digest_of(x)).len() == 32,
        injective_digests(spec_prove(nib_entries(e), Seq::new(ks.len(), |i: int| spec_nibbles(ks[i])))),
    ensures
        spec_verify(
            spec_root(e),
            spec_prove(nib_entries(e), Seq::new(ks.len(), |i: int| spec_nibbles(ks[i]))),
            expected_asserts(e, ks),
        ) == Result::<(), VerifyError>::Ok(()),
{
    let nv = nib_entries(e);
    let nks = Seq::new(ks.len(), |i: int| spec_nibbles(ks[i]));
    let blobs = spec_prove(nv, nks);
    let index = blob_index(blobs);
    let root = spec_root(e);
    crate::trie::lemma_nib_entries_props(e);
    lemma_blob_index_covered(blobs);
    lemma_dedup_distinct(walk_many(nv, nks));
    assert(valid_nibs(nv)) by {
        assert forall|i: int, j: int|
            0 <= i < nv.len() && 0 <= j < nv[i].0.len() implies #[trigger] nv[i].0[j] < 16 by {
            lemma_nibbles_valid(e[i].0);
            assert(nv[i].0 == spec_nibbles(e[i].0));
        };
    };
    assert forall|j: int|
        0 <= j < expected_asserts(e, ks).len() implies spec_check_one(
        index,
        root,
        (#[trigger] expected_asserts(e, ks)[j]).0,
        expected_asserts(e, ks)[j].1,
    ) == Result::<(), VerifyError>::Ok(()) by {
        let nk = spec_nibbles(ks[j]);
        let w = spec_walk(nv, nk);
        assert(covered(index, w)) by {
            assert forall|b: Seq<u8>| w.contains(b) implies index.dom().contains(
                #[trigger] digest_of(b),
            ) && index[digest_of(b)] == b by {
                lemma_walk_in_walk_many(nv, nks, j, b);
                assert(walk_many(nv, nks).contains(b));
                assert(blobs.contains(b));
            };
        };
        assert(w[0] == enc_trie(nv));
        assert(w.contains(enc_trie(nv)));
        assert(index.dom().contains(root));
        lemma_descend_walk(index, nv, nk);
        lemma_resolve_is_lookup(nv, nk);
        lemma_lookup_nibbles(e, ks[j]);
        assert(expected_asserts(e, ks)[j] == (ks[j], pairs_lookup(e, ks[j])));
    };
    lemma_verify_all(root, blobs, expected_asserts(e, ks));
}

proof fn lemma_walk_in_walk_many(
    s: Seq<(Seq<u8>, Seq<u8>)>,
    ks: Seq<Seq<u8>>,
    j: int,
    b: Seq<u8>,
)
    requires
        0 <= j < ks.len(),
        spec_walk(s, ks[j]).contains(b),
    ensures
        walk_many(s, ks).contains(b),
    decreases ks.len(),
{
    if j == ks.len() - 1 {
        let pre = walk_many(s, ks.drop_last());
        let m = choose|m: int| 0 <= m < spec_walk(s, ks[j]).len() && spec_walk(s, ks[j])[m] == b;
        assert(walk_many(s, ks)[pre.len() + m] == b);
    } else {
        assert(ks.drop_last()[j] == ks[j]);
        lemma_walk_in_walk_many(s, ks.drop_last(), j, b);
        let pre = walk_many(s, ks.drop_last());
        let m = choose|m: int| 0 <= m < pre.len() && pre[m] == b;
        assert(walk_many(s, ks)[m] == b);
    }
}

} // verus!
