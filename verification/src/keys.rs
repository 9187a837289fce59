use vstd::prelude::*;

verus! {

/// The nibble expansion of a byte string: each byte contributes its high
/// 4-bit half, then its low half, so keys descend a radix-16 trie two
/// nibbles per byte.
pub open spec fn spec_nibbles(k: Seq<u8>) -> Seq<u8> {
    Seq::new(k.len() * 2, |i: int| if i % 2 == 0 { k[i / 2] / 16 } else { k[i / 2] % 16 })
}

pub proof fn lemma_nibbles_valid(k: Seq<u8>)
    ensures
        forall|i: int| 0 <= i < spec_nibbles(k).len() ==> spec_nibbles(k)[i] < 16,
{
}

/// Distinct byte keys stay distinct after nibble expansion.
pub proof fn lemma_nibbles_injective(a: Seq<u8>, b: Seq<u8>)
    requires
        spec_nibbles(a) == spec_nibbles(b),
    ensures
        a == b,
{
    assert(spec_nibbles(a).len() == spec_nibbles(b).len());
    assert(spec_nibbles(a).len() == a.len() * 2);
    assert(spec_nibbles(b).len() == b.len() * 2);
    assert(a.len() * 2 == b.len() * 2);
    assert forall|i: int| 0 <= i < a.len() implies a[i] == b[i] by {
        assert(0 <= 2 * i < spec_nibbles(a).len());
        assert(0 <= 2 * i + 1 < spec_nibbles(a).len());
        assert((2 * i) % 2 == 0 && (2 * i) / 2 == i);
        assert((2 * i + 1) % 2 == 1 && (2 * i + 1) / 2 == i);
        assert(spec_nibbles(a)[2 * i] == a[i] / 16);
        assert(spec_nibbles(b)[2 * i] == b[i] / 16);
        assert(spec_nibbles(a)[2 * i + 1] == a[i] % 16);
        assert(spec_nibbles(b)[2 * i + 1] == b[i] % 16);
        assert(a[i] / 16 == b[i] / 16 && a[i] % 16 == b[i] % 16);
        assert(a[i] == a[i] / 16 * 16 + a[i] % 16);
        assert(b[i] == b[i] / 16 * 16 + b[i] % 16);
    };
    assert(a =~= b);
}

pub(crate) fn to_nibbles(k: &Vec<u8>) -> (r: Vec<u8>)
    requires
        k@.len() * 2 <= usize::MAX,
    ensures
        r@ == spec_nibbles(k@),
{
    let mut r: Vec<u8> = Vec::new();
    let mut i: usize = 0;
    while i < k.len()
        invariant
            i <= k@.len(),
            k@.len() * 2 <= usize::MAX,
            r@ == spec_nibbles(k@.subrange(0, i as int)),
        decreases k@.len() - i,
    {
        let b: u8 = k[i];
        r.push(b / 16);
        r.push(b % 16);
        i = i + 1;
        proof {
            assert(r@ =~= spec_nibbles(k@.subrange(0, i as int)));
        }
    }
    proof {
        assert(k@.subrange(0, k@.len() as int) =~= k@);
    }
    r
}

/// The sequence of views of a sequence of byte vectors.
pub open spec fn seq_views(vs: Seq<Vec<u8>>) -> Seq<Seq<u8>> {
    Seq::new(vs.len(), |i: int| vs[i]@)
}

/// Lexicographic order on byte strings, with a proper prefix ordered first.
pub open spec fn lex_le(a: Seq<u8>, b: Seq<u8>) -> bool
    decreases a.len(),
{
    if a.len() == 0 {
        true
    } else if b.len() == 0 {
        false
    } else if a[0] < b[0] {
        true
    } else if a[0] > b[0] {
        false
    } else {
        lex_le(a.drop_first(), b.drop_first())
    }
}

pub proof fn lemma_lex_total(a: Seq<u8>, b: Seq<u8>)
    ensures
        lex_le(a, b) || lex_le(b, a),
    decreases a.len(),
{
    if a.len() > 0 && b.len() > 0 && a[0] == b[0] {
        lemma_lex_total(a.drop_first(), b.drop_first());
    }
}

pub proof fn lemma_lex_antisym(a: Seq<u8>, b: Seq<u8>)
    requires
        lex_le(a, b),
        lex_le(b, a),
    ensures
        a == b,
    decreases a.len(),
{
    if a.len() == 0 {
        assert(b.len() == 0);
        assert(a =~= b);
    } else {
        assert(b.len() > 0);
        assert(a[0] == b[0]);
        lemma_lex_antisym(a.drop_first(), b.drop_first());
        assert(a.drop_first().len() == b.drop_first().len());
        assert(a.len() == b.len());
        assert forall|i: int| 0 <= i < a.len() implies a[i] == b[i] by {
            if i > 0 {
                assert(a[i] == a.drop_first()[i - 1]);
                assert(b[i] == b.drop_first()[i - 1]);
                assert(a.drop_first()[i - 1] == b.drop_first()[i - 1]);
            }
        };
        assert(a =~= b);
    }
}

pub proof fn lemma_lex_trans(a: Seq<u8>, b: Seq<u8>, c: Seq<u8>)
    requires
        lex_le(a, b),
        lex_le(b, c),
    ensures
        lex_le(a, c),
    decreases a.len(),
{
    if a.len() > 0 {
        assert(b.len() > 0);
        assert(c.len() > 0);
        if a[0] == b[0] && b[0] == c[0] {
            lemma_lex_trans(a.drop_first(), b.drop_first(), c.drop_first());
        }
    }
}

proof fn lemma_lex_skip(a: Seq<u8>, b: Seq<u8>, i: int)
    requires
        0 <= i <= a.len(),
        i <= b.len(),
        forall|j: int| 0 <= j < i ==> a[j] == b[j],
    ensures
        lex_le(a, b) == lex_le(a.skip(i), b.skip(i)),
    decreases i,
{
    if i > 0 {
        assert(a[0] == b[0]);
        lemma_lex_skip(a.drop_first(), b.drop_first(), i - 1);
        assert(a.drop_first().skip(i - 1) =~= a.skip(i));
        assert(b.drop_first().skip(i - 1) =~= b.skip(i));
    } else {
        assert(a.skip(0) =~= a);
        assert(b.skip(0) =~= b);
    }
}

pub(crate) fn bytes_eq(a: &Vec<u8>, b: &Vec<u8>) -> (r: bool)
    ensures
        r == (a@ == b@),
{
    if a.len() != b.len() {
        return false;
    }
    let mut i: usize = 0;
    while i < a.len()
        invariant
            i <= a@.len(),
            a@.len() == b@.len(),
            forall|j: int| 0 <= j < i ==> a@[j] == b@[j],
        decreases a@.len() - i,
    {
        if a[i] != b[i] {
            return false;
        }
        i = i + 1;
    }
    proof {
        assert(a@ =~= b@);
    }
    true
}

pub(crate) fn bytes_lex_le(a: &Vec<u8>, b: &Vec<u8>) -> (r: bool)
    ensures
        r == lex_le(a@, b@),
{
    let n: usize = if a.len() < b.len() {
        a.len()
    } else {
        b.len()
    };
    let mut i: usize = 0;
    while i < n
        invariant
            i <= n,
            n <= a@.len(),
            n <= b@.len(),
            n == if a@.len() < b@.len() { a@.len() } else { b@.len() },
            forall|j: int| 0 <= j < i ==> a@[j] == b@[j],
        decreases n - i,
    {
        if a[i] < b[i] {
            proof {
                lemma_lex_skip(a@, b@, i as int);
            }
            return true;
        }
        if a[i] > b[i] {
            proof {
                lemma_lex_skip(a@, b@, i as int);
            }
            return false;
        }
        i = i + 1;
    }
    proof {
        lemma_lex_skip(a@, b@, n as int);
    }
    a.len() <= b.len()
}

} // verus!
