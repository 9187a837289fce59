use vstd::prelude::*;

use crate::builder::MAX_KEY_BYTES;
use crate::hashing::digest_of;
use crate::keys::bytes_eq;
use crate::keys::seq_views;
use crate::keys::spec_nibbles;
use crate::keys::to_nibbles;
use crate::encode::tail_from;
use crate::shape::is_prefix;
use crate::store::NodeStore;

verus! {

/// Why a verification failed, client-distinguishable.
#[derive(Debug, Clone, Copy, PartialEq, Eq, Structural)]
pub enum VerifyError {
    /// No supplied node hashes to the claimed root digest.
    RootMismatch,
    /// The descent needed a node the proof does not supply (or supplies
    /// only as undecodable bytes).
    IncompleteProof,
    /// The proof resolves a key contrary to what was asserted of it.
    AssertionFailed,
}

/// A parsed node, children held only as digests.
pub enum SpecNode {
    Empty,
    Leaf { key: Seq<u8>, value: Seq<u8> },
    Ext { prefix: Seq<u8>, child: Seq<u8> },
    Branch { children: Seq<Option<Seq<u8>>>, value: Option<Seq<u8>> },
}

pub open spec fn read_u32(b: Seq<u8>, pos: int) -> int {
    b[pos] as int + 256 * (b[pos + 1] as int) + 65536 * (b[pos + 2] as int) + 16777216 * (b[pos
        + 3] as int)
}

/// Parses one optional length-prefixed field at `pos`; yields the field
/// and the position after it.
pub open spec fn parse_opt(b: Seq<u8>, pos: int) -> Option<(Option<Seq<u8>>, int)> {
    if pos < 0 || pos >= b.len() {
        Option::None
    } else if b[pos] == 0 {
        Option::Some((Option::None, pos + 1))
    } else if b[pos] == 1 {
        if pos + 5 <= b.len() {
            let l = read_u32(b, pos + 1);
            if pos + 5 + l <= b.len() {
                Option::Some((Option::Some(b.subrange(pos + 5, pos + 5 + l)), pos + 5 + l))
            } else {
                Option::None
            }
        } else {
            Option::None
        }
    } else {
        Option::None
    }
}

pub open spec fn parse_children(b: Seq<u8>, pos: int, i: int) -> Option<(Seq<Option<Seq<u8>>>, int)>
    decreases 16 - i,
{
    if i >= 16 {
        Option::Some((Seq::empty(), pos))
    } else {
        match parse_opt(b, pos) {
            Option::None => Option::None,
            Option::Some((o, p2)) => match parse_children(b, p2, i + 1) {
                Option::None => Option::None,
                Option::Some((rest, p3)) => Option::Some((seq![o] + rest, p3)),
            },
        }
    }
}

/// Strict parse of one node encoding: exactly the canonical layout, the
/// whole byte string consumed, an extension prefix never empty.
pub open spec fn spec_decode(b: Seq<u8>) -> Option<SpecNode> {
    if b.len() == 0 {
        Option::None
    } else if b[0] == 0 {
        if b.len() == 1 {
            Option::Some(SpecNode::Empty)
        } else {
            Option::None
        }
    } else if b[0] == 1 {
        if b.len() >= 5 {
            let kl = read_u32(b, 1);
            if 5 + kl + 4 <= b.len() {
                let vl = read_u32(b, 5 + kl);
                if 9 + kl + vl == b.len() {
                    Option::Some(
                        SpecNode::Leaf {
                            key: b.subrange(5, 5 + kl),
                            value: b.subrange(9 + kl, 9 + kl + vl),
                        },
                    )
                } else {
                    Option::None
                }
            } else {
                Option::None
            }
        } else {
            Option::None
        }
    } else if b[0] == 2 {
        if b.len() >= 5 {
            let pl = read_u32(b, 1);
            if pl >= 1 && 5 + pl + 4 <= b.len() {
                let dl = read_u32(b, 5 + pl);
                if 9 + pl + dl == b.len() {
                    Option::Some(
                        SpecNode::Ext {
                            prefix: b.subrange(5, 5 + pl),
                            child: b.subrange(9 + pl, 9 + pl + dl),
                        },
                    )
                } else {
                    Option::None
                }
            } else {
                Option::None
            }
        } else {
            Option::None
        }
    } else if b[0] == 3 {
        match parse_children(b, 1, 0) {
            Option::None => Option::None,
            Option::Some((cs, p)) => match parse_opt(b, p) {
                Option::None => Option::None,
                Option::Some((o, p2)) => if p2 == b.len() {
                    Option::Some(SpecNode::Branch { children: cs, value: o })
                } else {
                    Option::None
                },
            },
        }
    } else {
        Option::None
    }
}

/// The digest-indexed node map a proof supplies: each blob under its own
/// digest, the first blob kept where two share one.
pub open spec fn blob_index(bs: Seq<Seq<u8>>) -> Map<Seq<u8>, Seq<u8>>
    decreases bs.len(),
{
    if bs.len() == 0 {
        Map::empty()
    } else {
        let m = blob_index(bs.drop_last());
        let d = digest_of(bs.last());
        if m.contains_key(d) {
            m
        } else {
            m.insert(d, bs.last())
        }
    }
}

/// Replays one descent inside the proof-supplied node map, trusting a
/// byte only when it sits under the digest the parent demanded.
pub open spec fn spec_descend(index: Map<Seq<u8>, Seq<u8>>, d: Seq<u8>, k: Seq<u8>) -> Result<
    Option<Seq<u8>>,
    VerifyError,
>
    decreases k.len(),
{
    if !index.dom().contains(d) {
        Result::Err(VerifyError::IncompleteProof)
    } else {
        match spec_decode(index[d]) {
            Option::None => Result::Err(VerifyError::IncompleteProof),
            Option::Some(SpecNode::Empty) => Result::Ok(Option::None),
            Option::Some(SpecNode::Leaf { key, value }) => if key == k {
                Result::Ok(Option::Some(value))
            } else {
                Result::Ok(Option::None)
            },
            Option::Some(SpecNode::Ext { prefix, child }) => if !is_prefix(prefix, k) {
                Result::Ok(Option::None)
            } else if prefix.len() == 0 {
                Result::Err(VerifyError::IncompleteProof)
            } else {
                spec_descend(index, child, k.skip(prefix.len() as int))
            },
            Option::Some(SpecNode::Branch { children, value }) => if k.len() == 0 {
                Result::Ok(value)
            } else {
                let ci = k[0] as int;
                if 0 <= ci < children.len() {
                    match children[ci] {
                        Option::None => Result::Ok(Option::None),
                        Option::Some(cd) => spec_descend(index, cd, k.skip(1)),
                    }
                } else {
                    Result::Ok(Option::None)
                }
            },
        }
    }
}

/// One assertion checked against the proof: the root must be supplied,
/// the descent must complete, and its outcome must match the claim.
pub open spec fn spec_check_one(
    index: Map<Seq<u8>, Seq<u8>>,
    root: Seq<u8>,
    k: Seq<u8>,
    expected: Option<Seq<u8>>,
) -> Result<(), VerifyError> {
    if !index.dom().contains(root) {
        Result::Err(VerifyError::RootMismatch)
    } else {
        match spec_descend(index, root, spec_nibbles(k)) {
            Result::Ok(got) => if got == expected {
                Result::Ok(())
            } else {
                Result::Err(VerifyError::AssertionFailed)
            },
            Result::Err(e) => Result::Err(e),
        }
    }
}

/// The whole verification: every assertion checked in order against the
/// proof's node map; the first failure is the result.
pub open spec fn spec_verify(
    root: Seq<u8>,
    blobs: Seq<Seq<u8>>,
    asserts: Seq<(Seq<u8>, Option<Seq<u8>>)>,
) -> Result<(), VerifyError>
    decreases asserts.len(),
{
    if asserts.len() == 0 {
        Result::Ok(())
    } else {
        match spec_check_one(blob_index(blobs), root, asserts[0].0, asserts[0].1) {
            Result::Ok(()) => spec_verify(root, blobs, asserts.drop_first()),
            Result::Err(e) => Result::Err(e),
        }
    }
}

pub open spec fn opt_view(o: Option<Vec<u8>>) -> Option<Seq<u8>> {
    match o {
        Option::None => Option::None,
        Option::Some(v) => Option::Some(v@),
    }
}

/// The view of an assertion list: byte keys with claimed values.
pub open spec fn asserts_view(s: Seq<(Vec<u8>, Option<Vec<u8>>)>) -> Seq<(Seq<u8>, Option<Seq<u8>>)> {
    Seq::new(s.len(), |i: int| (s[i].0@, opt_view(s[i].1)))
}

// ---------------------------------------------------------------------------
// Executable decoding.
// ---------------------------------------------------------------------------

pub enum DecodedNode {
    Empty,
    Leaf { key: Vec<u8>, value: Vec<u8> },
    Ext { prefix: Vec<u8>, child: Vec<u8> },
    Branch { children: Vec<Option<Vec<u8>>>, value: Option<Vec<u8>> },
}

pub open spec fn node_view(n: DecodedNode) -> SpecNode {
    match n {
        DecodedNode::Empty => SpecNode::Empty,
        DecodedNode::Leaf { key, value } => SpecNode::Leaf { key: key@, value: value@ },
        DecodedNode::Ext { prefix, child } => SpecNode::Ext { prefix: prefix@, child: child@ },
        DecodedNode::Branch { children, value } => SpecNode::Branch {
            children: Seq::new(children@.len(), |i: int| opt_view(children@[i])),
            value: opt_view(value),
        },
    }
}

fn read_u32_exec(b: &Vec<u8>, pos: usize) -> (r: u64)
    requires
        pos + 4 <= b@.len(),
    ensures
        r == read_u32(b@, pos as int),
        r <= 0xFFFFFFFFu64,
{
    let n: usize = b.len();
    proof {
        assert(pos + 4 <= n);
    }
    let r: u64 = (b[pos] as u64) + 256 * (b[pos + 1] as u64) + 65536 * (b[pos + 2] as u64)
        + 16777216 * (b[pos + 3] as u64);
    r
}

fn mid_slice(b: &Vec<u8>, start: usize, end: usize) -> (r: Vec<u8>)
    requires
        start <= end <= b@.len(),
    ensures
        r@ == b@.subrange(start as int, end as int),
{
    let mut r: Vec<u8> = Vec::new();
    let mut i: usize = start;
    while i < end
        invariant
            start <= i <= end <= b@.len(),
            r@ == b@.subrange(start as int, i as int),
        decreases end - i,
    {
        r.push(b[i]);
        i = i + 1;
        proof {
            assert(b@.subrange(start as int, i - 1).push(b@[i - 1]) =~= b@.subrange(
                start as int,
                i as int,
            ));
        }
    }
    r
}

fn parse_opt_exec(b: &Vec<u8>, pos: usize) -> (r: Option<(Option<Vec<u8>>, usize)>)
    ensures
        match r {
            Option::None => parse_opt(b@, pos as int) is None,
            Option::Some((o, p2)) => parse_opt(b@, pos as int) == Option::Some(
                (opt_view(o), p2 as int),
            ),
        },
{
    if pos >= b.len() {
        return None;
    }
    let tag = b[pos];
    if tag == 0 {
        return Some((None, pos + 1));
    }
    if tag != 1 {
        return None;
    }
    if b.len() - pos < 5 {
        return None;
    }
    let l = read_u32_exec(b, pos + 1);
    let remaining: u64 = (b.len() - pos - 5) as u64;
    if l > remaining {
        return None;
    }
    let lu: usize = l as usize;
    let field = mid_slice(b, pos + 5, pos + 5 + lu);
    Some((Some(field), pos + 5 + lu))
}

/// Parses one node blob; `None` on any deviation from the canonical
/// encoding.
pub fn decode_node(b: &Vec<u8>) -> (r: Option<DecodedNode>)
    ensures
        match r {
            Option::None => spec_decode(b@) is None,
            Option::Some(n) => spec_decode(b@) == Option::Some(node_view(n)),
        },
{
    if b.len() == 0 {
        return None;
    }
    let tag = b[0];
    if tag == 0 {
        if b.len() == 1 {
            return Some(DecodedNode::Empty);
        }
        return None;
    }
    if tag == 1 || tag == 2 {
        if b.len() < 5 {
            return None;
        }
        let kl = read_u32_exec(b, 1);
        if kl > (b.len() as u64) - 5 || (b.len() as u64) - 5 - kl < 4 {
            return None;
        }
        let klu: usize = kl as usize;
        if tag == 2 && klu == 0 {
            return None;
        }
        let vl = read_u32_exec(b, 5 + klu);
        if 9 + kl + vl != b.len() as u64 {
            return None;
        }
        let vlu: usize = vl as usize;
        let first = mid_slice(b, 5, 5 + klu);
        let second = mid_slice(b, 9 + klu, 9 + klu + vlu);
        if tag == 1 {
            return Some(DecodedNode::Leaf { key: first, value: second });
        }
        return Some(DecodedNode::Ext { prefix: first, child: second });
    }
    if tag != 3 {
        return None;
    }
    let mut children: Vec<Option<Vec<u8>>> = Vec::new();
    let mut pos: usize = 1;
    let mut i: usize = 0;
    while i < 16
        invariant
            i <= 16,
            children@.len() == i,
            b@.len() >= 1 && b@[0] == 3,
            pos <= b@.len() + 1,
            parse_children(b@, 1, 0) == (match parse_children(b@, pos as int, i as int) {
                Option::None => Option::<(Seq<Option<Seq<u8>>>, int)>::None,
                Option::Some((rest, p)) => Option::Some(
                    (Seq::new(children@.len(), |m: int| opt_view(children@[m])) + rest, p),
                ),
            }),
        decreases 16 - i,
    {
        let ghost cs0 = Seq::new(children@.len(), |m: int| opt_view(children@[m]));
        match parse_opt_exec(b, pos) {
            None => {
                proof {
                    assert(parse_children(b@, pos as int, i as int) is None);
                }
                return None;
            },
            Some((o, p2)) => {
                let ghost ov = opt_view(o);
                children.push(o);
                pos = p2;
                i = i + 1;
                proof {
                    let cs1 = Seq::new(children@.len(), |m: int| opt_view(children@[m]));
                    assert(cs1 =~= cs0.push(ov));
                    assert forall|rest: Seq<Option<Seq<u8>>>| true implies cs0 + (seq![ov] + rest)
                        =~= cs1 + rest by {}
                }
            },
        }
    }
    let bv = match parse_opt_exec(b, pos) {
        None => {
            return None;
        },
        Some((o, p2)) => {
            if p2 != b.len() {
                proof {
                    assert(parse_children(b@, 1, 0) is Some);
                }
                return None;
            }
            o
        },
    };
    proof {
        assert(parse_children(b@, pos as int, 16) == Option::Some(
            (Seq::<Option<Seq<u8>>>::empty(), pos as int),
        ));
        let cs = Seq::new(children@.len(), |m: int| opt_view(children@[m]));
        assert(cs + Seq::<Option<Seq<u8>>>::empty() =~= cs);
    }
    Some(DecodedNode::Branch { children, value: bv })
}

// ---------------------------------------------------------------------------
// Executable verification.
// ---------------------------------------------------------------------------

pub open spec fn lookup_view(r: Result<Option<Vec<u8>>, VerifyError>) -> Result<
    Option<Seq<u8>>,
    VerifyError,
> {
    match r {
        Result::Ok(o) => Result::Ok(opt_view(o)),
        Result::Err(e) => Result::Err(e),
    }
}

fn is_prefix_of(p: &Vec<u8>, k: &Vec<u8>) -> (r: bool)
    ensures
        r == is_prefix(p@, k@),
{
    if p.len() > k.len() {
        return false;
    }
    let mut i: usize = 0;
    while i < p.len()
        invariant
            i <= p@.len() <= k@.len(),
            forall|j: int| 0 <= j < i ==> p@[j] == k@[j],
        decreases p@.len() - i,
    {
        if p[i] != k[i] {
            proof {
                if is_prefix(p@, k@) {
                    assert(k@.subrange(0, p@.len() as int)[i as int] == k@[i as int]);
                }
            }
            return false;
        }
        i = i + 1;
    }
    proof {
        assert(k@.subrange(0, p@.len() as int) =~= p@);
    }
    true
}

/// Replays the descent for the nibble string `nib` from `root` inside the
/// digest-indexed node map.
fn descend(idx: &NodeStore, root: &Vec<u8>, nib: &Vec<u8>) -> (r: Result<
    Option<Vec<u8>>,
    VerifyError,
>)
    ensures
        lookup_view(r) == spec_descend(idx.contents(), root@, nib@),
{
    let mut cur = tail_from(root, 0);
    proof {
        assert(cur@ =~= root@);
    }
    let mut pos: usize = 0;
    proof {
        assert(nib@.skip(0) =~= nib@);
    }
    loop
        invariant
            pos <= nib@.len(),
            spec_descend(idx.contents(), root@, nib@) == spec_descend(
                idx.contents(),
                cur@,
                nib@.skip(pos as int),
            ),
        decreases nib@.len() - pos,
    {
        let ghost rem = nib@.skip(pos as int);
        let bytes = match idx.get(&cur) {
            Ok(bytes) => bytes,
            Err(_) => {
                return Err(VerifyError::IncompleteProof);
            },
        };
        proof {
            assert(idx.contents()[cur@] == bytes@);
        }
        let node = match decode_node(bytes) {
            Some(node) => node,
            None => {
                return Err(VerifyError::IncompleteProof);
            },
        };
        match node {
            DecodedNode::Empty => {
                return Ok(None);
            },
            DecodedNode::Leaf { key, value } => {
                let rest = tail_from(nib, pos);
                let eq = bytes_eq(&key, &rest);
                if eq {
                    return Ok(Some(value));
                }
                return Ok(None);
            },
            DecodedNode::Ext { prefix, child } => {
                let rest = tail_from(nib, pos);
                let ok = is_prefix_of(&prefix, &rest);
                if !ok {
                    return Ok(None);
                }
                if prefix.len() == 0 {
                    return Err(VerifyError::IncompleteProof);
                }
                proof {
                    assert(nib.len() == nib@.len());
                    assert(prefix@.len() <= rem.len());
                    assert(pos + prefix@.len() <= nib@.len());
                    assert(rem.skip(prefix@.len() as int) =~= nib@.skip(
                        pos + prefix@.len() as int,
                    ));
                }
                pos = pos + prefix.len();
                cur = child;
            },
            DecodedNode::Branch { children, value } => {
                if pos == nib.len() {
                    proof {
                        assert(rem.len() == 0);
                    }
                    return Ok(value);
                }
                proof {
                    assert(rem[0] == nib@[pos as int]);
                }
                let c = nib[pos];
                let ci = c as usize;
                if ci >= children.len() {
                    return Ok(None);
                }
                let child = match &children[ci] {
                    None => {
                        proof {
                            assert(opt_view(children@[ci as int]) is None);
                        }
                        return Ok(None);
                    },
                    Some(cd) => tail_from(cd, 0),
                };
                proof {
                    assert(child@ =~= match children@[ci as int] {
                        Option::Some(cd) => cd@,
                        Option::None => Seq::<u8>::empty(),
                    });
                    assert(rem.skip(1) =~= nib@.skip(pos + 1));
                }
                pos = pos + 1;
                cur = child;
            },
        }
    }
}

fn opts_match(got: &Option<Vec<u8>>, expected: &Option<Vec<u8>>) -> (r: bool)
    ensures
        r == (opt_view(*got) == opt_view(*expected)),
{
    match (got, expected) {
        (None, None) => true,
        (Some(g), Some(e)) => bytes_eq(g, e),
        _ => false,
    }
}

/// Indexes the proof blobs by their recomputed digests, first blob kept
/// per digest.
fn index_proof(proof: &Vec<Vec<u8>>) -> (r: NodeStore)
    ensures
        r.contents() == blob_index(seq_views(proof@)),
{
    let mut idx = NodeStore::new();
    proof {
        assert(seq_views(proof@).subrange(0, 0) =~= Seq::<Seq<u8>>::empty());
    }
    let mut i: usize = 0;
    while i < proof.len()
        invariant
            i <= proof@.len(),
            idx.contents() == blob_index(seq_views(proof@).subrange(0, i as int)),
        decreases proof@.len() - i,
    {
        let blob = tail_from(&proof[i], 0);
        proof {
            assert(blob@ =~= proof@[i as int]@);
        }
        let _ = idx.put(blob);
        i = i + 1;
        proof {
            let bv = seq_views(proof@);
            assert(bv.subrange(0, i as int).drop_last() =~= bv.subrange(0, i - 1));
            assert(bv.subrange(0, i as int).last() == bv[i - 1]);
        }
    }
    proof {
        assert(seq_views(proof@).subrange(0, proof@.len() as int) =~= seq_views(proof@));
    }
    idx
}

/// Checks every (key, claimed value or absence) assertion against the
/// root digest using only the proof's node blobs. `Ok` exactly when each
/// assertion replays consistently; the first failure names its reason.
pub fn verify(
    root: &Vec<u8>,
    proof: &Vec<Vec<u8>>,
    assertions: &Vec<(Vec<u8>, Option<Vec<u8>>)>,
) -> (r: Result<(), VerifyError>)
    requires
        forall|i: int|
            0 <= i < assertions@.len() ==> (#[trigger] assertions@[i]).0@.len()
                <= MAX_KEY_BYTES as int,
    ensures
        r == spec_verify(root@, seq_views(proof@), asserts_view(assertions@)),
{
    let idx = index_proof(proof);
    let ghost av = asserts_view(assertions@);
    proof {
        assert(av.skip(0) =~= av);
    }
    let mut i: usize = 0;
    while i < assertions.len()
        invariant
            i <= assertions@.len(),
            forall|j: int|
                0 <= j < assertions@.len() ==> (#[trigger] assertions@[j]).0@.len()
                    <= MAX_KEY_BYTES as int,
            av == asserts_view(assertions@),
            idx.contents() == blob_index(seq_views(proof@)),
            spec_verify(root@, seq_views(proof@), av) == spec_verify(
                root@,
                seq_views(proof@),
                av.skip(i as int),
            ),
        decreases assertions@.len() - i,
    {
        let a = &assertions[i];
        proof {
            assert(av.skip(i as int)[0] == av[i as int]);
            assert(av[i as int] == (assertions@[i as int].0@, opt_view(assertions@[i as int].1)));
            assert(av.skip(i as int).drop_first() =~= av.skip(i + 1));
        }
        match idx.get(root) {
            Ok(_) => {},
            Err(_) => {
                return Err(VerifyError::RootMismatch);
            },
        }
        let nk = to_nibbles(&a.0);
        let got = match descend(&idx, root, &nk) {
            Ok(got) => got,
            Err(e) => {
                return Err(e);
            },
        };
        let matched = opts_match(&got, &a.1);
        if !matched {
            return Err(VerifyError::AssertionFailed);
        }
        i = i + 1;
    }
    proof {
        assert(av.skip(av.len() as int) =~= Seq::<(Seq<u8>, Option<Seq<u8>>)>::empty());
    }
    Ok(())
}

/// What a proof says of one key: the value it carries for it, `Ok(None)`
/// for a proven absence, or why the proof cannot say.
pub open spec fn spec_proof_lookup(root: Seq<u8>, blobs: Seq<Seq<u8>>, key: Seq<u8>) -> Result<
    Option<Seq<u8>>,
    VerifyError,
> {
    if !blob_index(blobs).dom().contains(root) {
        Result::Err(VerifyError::RootMismatch)
    } else {
        spec_descend(blob_index(blobs), root, spec_nibbles(key))
    }
}

/// Extracts the value a proof resolves `key` to, without a claimed value
/// to compare against.
pub fn lookup(root: &Vec<u8>, proof: &Vec<Vec<u8>>, key: &Vec<u8>) -> (r: Result<
    Option<Vec<u8>>,
    VerifyError,
>)
    requires
        key@.len() <= MAX_KEY_BYTES as int,
    ensures
        lookup_view(r) == spec_proof_lookup(root@, seq_views(proof@), key@),
{
    let idx = index_proof(proof);
    match idx.get(root) {
        Ok(_) => {},
        Err(_) => {
            return Err(VerifyError::RootMismatch);
        },
    }
    let nk = to_nibbles(key);
    descend(&idx, root, &nk)
}

} // verus!
