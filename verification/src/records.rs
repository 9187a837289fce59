use vstd::prelude::*;

use crate::keys::seq_views;
use crate::verify::lookup;
use crate::verify::spec_proof_lookup;

verus! {

/// The compact variable-length encoding of an unsigned integer, as used
/// for record-position keys: two mode bits in the first byte select a
/// one-, two- or four-byte form or a length-prefixed big form.
pub open spec fn spec_compact_u32(v: u32) -> Seq<u8> {
    if v < 64 {
        seq![(v * 4) as u8]
    } else if v < 16384 {
        let x = v * 4 + 1;
        seq![(x % 256) as u8, (x / 256) as u8]
    } else if v < 1073741824 {
        let x = (v as int) * 4 + 2;
        seq![
            (x % 256) as u8,
            (x / 256 % 256) as u8,
            (x / 65536 % 256) as u8,
            (x / 16777216 % 256) as u8,
        ]
    } else {
        seq![
            3u8,
            (v % 256) as u8,
            (v / 256 % 256) as u8,
            (v / 65536 % 256) as u8,
            (v / 16777216 % 256) as u8,
        ]
    }
}

/// Encodes a record position as its compact key.
pub fn compact_u32(v: u32) -> (r: Vec<u8>)
    ensures
        r@ == spec_compact_u32(v),
        r@.len() <= 5,
{
    let mut r: Vec<u8> = Vec::new();
    if v < 64 {
        r.push((v * 4) as u8);
        proof {
            assert(r@ =~= spec_compact_u32(v));
        }
    } else if v < 16384 {
        let x: u32 = v * 4 + 1;
        r.push((x % 256) as u8);
        r.push((x / 256) as u8);
        proof {
            assert(r@ =~= spec_compact_u32(v));
        }
    } else if v < 1073741824 {
        let x: u64 = (v as u64) * 4 + 2;
        r.push((x % 256) as u8);
        r.push((x / 256 % 256) as u8);
        r.push((x / 65536 % 256) as u8);
        r.push((x / 16777216 % 256) as u8);
        proof {
            assert(r@ =~= spec_compact_u32(v));
        }
    } else {
        r.push(3u8);
        r.push((v % 256) as u8);
        r.push((v / 256 % 256) as u8);
        r.push((v / 65536 % 256) as u8);
        r.push((v / 16777216 % 256) as u8);
        proof {
            assert(r@ =~= spec_compact_u32(v));
        }
    }
    r
}

/// The little-endian value of `cnt` bytes starting at `lo`.
pub open spec fn le_val(b: Seq<u8>, lo: int, cnt: int) -> int
    decreases cnt,
{
    if cnt <= 0 {
        0
    } else {
        b[lo] + 256 * le_val(b, lo + 1, cnt - 1)
    }
}

pub open spec fn pow256(n: int) -> int
    decreases n,
{
    if n <= 0 {
        1
    } else {
        256 * pow256(n - 1)
    }
}

proof fn lemma_le_val_bound(b: Seq<u8>, lo: int, cnt: int)
    requires
        0 <= lo,
        lo + cnt <= b.len(),
    ensures
        0 <= le_val(b, lo, cnt) < pow256(cnt),
    decreases cnt,
{
    if cnt > 0 {
        lemma_le_val_bound(b, lo + 1, cnt - 1);
    }
}

proof fn lemma_pow256_pos(n: int)
    ensures
        pow256(n) >= 1,
    decreases n,
{
    if n > 0 {
        lemma_pow256_pos(n - 1);
    }
}

proof fn lemma_pow256_mono(n: int)
    requires
        0 <= n <= 8,
    ensures
        pow256(n) <= 0x10000000000000000int,
    decreases 8 - n,
{
    lemma_pow256_pos(n);
    if n < 8 {
        lemma_pow256_mono(n + 1);
        assert(pow256(n + 1) == 256 * pow256(n));
    } else {
        assert(pow256(0) == 1);
        assert(pow256(1) == 256 * pow256(0));
        assert(pow256(2) == 256 * pow256(1));
        assert(pow256(3) == 256 * pow256(2));
        assert(pow256(4) == 256 * pow256(3));
        assert(pow256(5) == 256 * pow256(4));
        assert(pow256(6) == 256 * pow256(5));
        assert(pow256(7) == 256 * pow256(6));
        assert(pow256(8) == 256 * pow256(7));
    }
}

/// Decodes a compact unsigned integer from the front of `b`: the value
/// and how many bytes it took. `None` when `b` is too short or the big
/// form would not fit in 64 bits.
pub open spec fn spec_compact_u64_decode(b: Seq<u8>) -> Option<(u64, int)> {
    if b.len() == 0 {
        Option::None
    } else if b[0] % 4 == 0 {
        Option::Some(((b[0] / 4) as u64, 1))
    } else if b[0] % 4 == 1 {
        if b.len() >= 2 {
            Option::Some(((le_val(b, 0, 2) / 4) as u64, 2))
        } else {
            Option::None
        }
    } else if b[0] % 4 == 2 {
        if b.len() >= 4 {
            Option::Some(((le_val(b, 0, 4) / 4) as u64, 4))
        } else {
            Option::None
        }
    } else {
        let n = b[0] / 4 + 4;
        if n <= 8 && 1 + n <= b.len() {
            Option::Some((le_val(b, 1, n as int) as u64, 1 + n))
        } else {
            Option::None
        }
    }
}

/// Decodes the compact integer at the front of `b`.
pub fn compact_u64_decode(b: &Vec<u8>) -> (r: Option<(u64, usize)>)
    ensures
        match r {
            Option::None => spec_compact_u64_decode(b@) is None,
            Option::Some((v, used)) => spec_compact_u64_decode(b@) == Option::Some(
                (v, used as int),
            ),
        },
{
    if b.len() == 0 {
        return None;
    }
    let m = b[0] % 4;
    if m == 0 {
        return Some(((b[0] / 4) as u64, 1));
    }
    if m == 1 {
        if b.len() < 2 {
            return None;
        }
        let x: u64 = (b[0] as u64) + 256 * (b[1] as u64);
        proof {
            assert(le_val(b@, 2, 0) == 0);
            assert(le_val(b@, 1, 1) == b@[1] + 256 * le_val(b@, 2, 0));
            assert(le_val(b@, 0, 2) == b@[0] + 256 * le_val(b@, 1, 1));
        }
        return Some((x / 4, 2));
    }
    if m == 2 {
        if b.len() < 4 {
            return None;
        }
        let x: u64 = (b[0] as u64) + 256 * (b[1] as u64) + 65536 * (b[2] as u64) + 16777216 * (
        b[3] as u64);
        proof {
            assert(le_val(b@, 4, 0) == 0);
            assert(le_val(b@, 3, 1) == b@[3] + 256 * le_val(b@, 4, 0));
            assert(le_val(b@, 2, 2) == b@[2] + 256 * le_val(b@, 3, 1));
            assert(le_val(b@, 1, 3) == b@[1] + 256 * le_val(b@, 2, 2));
            assert(le_val(b@, 0, 4) == b@[0] + 256 * le_val(b@, 1, 3));
        }
        return Some((x / 4, 4));
    }
    let n: usize = (b[0] / 4 + 4) as usize;
    if n > 8 {
        return None;
    }
    if b.len() < 1 + n {
        return None;
    }
    let mut value: u64 = 0;
    let mut j: usize = n;
    while j > 0
        invariant
            j <= n <= 8,
            1 + n <= b@.len(),
            value == le_val(b@, 1 + j, n - j),
            value < pow256(n - j),
        decreases j,
    {
        proof {
            lemma_le_val_bound(b@, 1 + j, n - j);
            lemma_pow256_mono(n - j + 1);
            assert(256 * le_val(b@, 1 + j, n - j) + 255 < 256 * pow256(n - j)) by (nonlinear_arith)
                requires
                    le_val(b@, 1 + j, n - j) < pow256(n - j),
            ;
        }
        j = j - 1;
        value = value * 256 + (b[1 + j] as u64);
        proof {
            assert(value == le_val(b@, 1 + j, n - j));
            lemma_le_val_bound(b@, 1 + j, n - j);
        }
    }
    Some((value, 1 + n))
}

/// Where the committed record for position zero keeps its integer
/// payload: after two envelope bytes and a two-byte call selector.
pub open spec fn spec_decode_timestamp(blobs: Seq<Seq<u8>>, root: Seq<u8>) -> Option<u64> {
    match spec_proof_lookup(root, blobs, spec_compact_u32(0)) {
        Result::Ok(Option::Some(bytes)) => if bytes.len() >= 4 {
            match spec_compact_u64_decode(bytes.skip(4)) {
                Option::Some((v, _)) => Option::Some(v),
                Option::None => Option::None,
            }
        } else {
            Option::None
        },
        _ => Option::None,
    }
}

/// Extracts the timestamp committed as the first record (position zero)
/// from a proof and the root digest it was issued against: the record's
/// bytes are fetched through the proof, the leading envelope and call
/// bytes skipped, and the compact integer after them decoded.
pub fn decode_timestamp_extrinsic(proof: &Vec<Vec<u8>>, root: &Vec<u8>) -> (r: Option<u64>)
    ensures
        r == spec_decode_timestamp(seq_views(proof@), root@),
{
    let key = compact_u32(0);
    let bytes = match lookup(root, proof, &key) {
        Ok(Some(bytes)) => bytes,
        Ok(None) => {
            return None;
        },
        Err(_) => {
            return None;
        },
    };
    if bytes.len() < 4 {
        return None;
    }
    let rest = crate::encode::tail_from(&bytes, 4);
    match compact_u64_decode(&rest) {
        Some((v, _)) => Some(v),
        None => None,
    }
}

} // verus!
