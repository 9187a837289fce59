use vstd::prelude::*;

use crate::keys::bytes_eq;
use crate::keys::bytes_lex_le;
use crate::keys::lemma_lex_antisym;
use crate::keys::lemma_lex_total;
use crate::keys::lemma_lex_trans;
use crate::keys::lex_le;

verus! {

/// The one malformed build input: an entry whose key and value are both
/// empty. Every other (key, value) pair is accepted.
#[derive(Debug, Clone, Copy, PartialEq, Eq, Structural)]
pub enum BuildError {
    EmptyEntry,
}

/// Keys longer than this cannot be inserted; keeps nibble counts and
/// serialized length fields inside `u32` on every target.
pub const MAX_KEY_BYTES: usize = 0x3FFF_FFFF;

/// Values longer than this cannot be inserted, for the same reason.
pub const MAX_VALUE_BYTES: usize = 0xFFFF_FFFE;

pub open spec fn lex_lt(a: Seq<u8>, b: Seq<u8>) -> bool {
    lex_le(a, b) && a != b
}

pub open spec fn sorted_strict(s: Seq<(Seq<u8>, Seq<u8>)>) -> bool {
    forall|i: int, j: int| 0 <= i < j < s.len() ==> lex_lt(s[i].0, s[j].0)
}

pub open spec fn bounded_entries(s: Seq<(Seq<u8>, Seq<u8>)>) -> bool {
    forall|i: int|
        0 <= i < s.len() ==> (#[trigger] s[i]).0.len() <= MAX_KEY_BYTES as int && s[i].1.len()
            <= MAX_VALUE_BYTES as int
}

/// The view of an exec entry list.
pub open spec fn pairs_view(s: Seq<(Vec<u8>, Vec<u8>)>) -> Seq<(Seq<u8>, Seq<u8>)> {
    Seq::new(s.len(), |i: int| (s[i].0@, s[i].1@))
}

/// What one `insert` does to the entry list: overwrite the key's entry if
/// present, else place the new entry at its ordered position.
pub open spec fn spec_insert(s: Seq<(Seq<u8>, Seq<u8>)>, k: Seq<u8>, v: Seq<u8>) -> Seq<
    (Seq<u8>, Seq<u8>),
>
    decreases s.len(),
{
    if s.len() == 0 {
        seq![(k, v)]
    } else if s[0].0 == k {
        seq![(k, v)] + s.drop_first()
    } else if lex_lt(k, s[0].0) {
        seq![(k, v)] + s
    } else {
        seq![s[0]] + spec_insert(s.drop_first(), k, v)
    }
}

/// The entry list that results from inserting a record sequence in order
/// into an empty builder.
pub open spec fn spec_build(rs: Seq<(Seq<u8>, Seq<u8>)>) -> Seq<(Seq<u8>, Seq<u8>)>
    decreases rs.len(),
{
    if rs.len() == 0 {
        Seq::empty()
    } else {
        spec_insert(spec_build(rs.drop_last()), rs.last().0, rs.last().1)
    }
}

pub proof fn lemma_spec_insert(s: Seq<(Seq<u8>, Seq<u8>)>, k: Seq<u8>, v: Seq<u8>)
    requires
        sorted_strict(s),
    ensures
        sorted_strict(spec_insert(s, k, v)),
        spec_insert(s, k, v).contains((k, v)),
        forall|e: (Seq<u8>, Seq<u8>)|
            spec_insert(s, k, v).contains(e) ==> (e == (k, v) || (s.contains(e) && e.0 != k)),
        forall|e: (Seq<u8>, Seq<u8>)| s.contains(e) && e.0 != k ==> spec_insert(s, k, v).contains(
            e,
        ),
        spec_insert(s, k, v).len() <= s.len() + 1,
    decreases s.len(),
{
    let r = spec_insert(s, k, v);
    if s.len() == 0 {
        assert(r == seq![(k, v)]);
        assert(r[0] == (k, v));
    } else if s[0].0 == k {
        assert(r == seq![(k, v)] + s.drop_first());
        assert(r[0] == (k, v));
        assert forall|i: int, j: int| 0 <= i < j < r.len() implies lex_lt(r[i].0, r[j].0) by {
            if i == 0 {
                assert(r[j] == s[j]);
                assert(lex_lt(s[0].0, s[j].0));
            } else {
                assert(r[i] == s[i] && r[j] == s[j]);
            }
        };
        assert forall|e: (Seq<u8>, Seq<u8>)| r.contains(e) implies (e == (k, v) || (s.contains(e)
            && e.0 != k)) by {
            let i = choose|i: int| 0 <= i < r.len() && r[i] == e;
            if i > 0 {
                assert(e == s[i]);
                assert(lex_lt(s[0].0, s[i].0));
            }
        };
        assert forall|e: (Seq<u8>, Seq<u8>)| s.contains(e) && e.0 != k implies r.contains(e) by {
            let i = choose|i: int| 0 <= i < s.len() && s[i] == e;
            assert(i > 0);
            assert(r[i] == s[i]);
        };
    } else if lex_lt(k, s[0].0) {
        assert(r == seq![(k, v)] + s);
        assert(r[0] == (k, v));
        assert forall|i: int, j: int| 0 <= i < j < r.len() implies lex_lt(r[i].0, r[j].0) by {
            if i == 0 {
                assert(r[j] == s[j - 1]);
                if j > 1 {
                    assert(lex_lt(s[0].0, s[j - 1].0));
                    lemma_lex_trans(k, s[0].0, s[j - 1].0);
                    if k == s[j - 1].0 {
                        lemma_lex_antisym(k, s[0].0);
                    }
                }
            } else {
                assert(r[i] == s[i - 1] && r[j] == s[j - 1]);
            }
        };
        assert forall|e: (Seq<u8>, Seq<u8>)| r.contains(e) implies (e == (k, v) || (s.contains(e)
            && e.0 != k)) by {
            let i = choose|i: int| 0 <= i < r.len() && r[i] == e;
            if i > 0 {
                assert(e == s[i - 1]);
                if e.0 == k {
                    if i == 1 {
                        assert(e.0 == s[0].0);
                    } else {
                        assert(lex_lt(s[0].0, s[i - 1].0));
                        lemma_lex_antisym(k, s[0].0);
                        lemma_lex_trans(s[0].0, k, s[0].0);
                    }
                    assert(false);
                }
            }
        };
        assert forall|e: (Seq<u8>, Seq<u8>)| s.contains(e) && e.0 != k implies r.contains(e) by {
            let i = choose|i: int| 0 <= i < s.len() && s[i] == e;
            assert(r[i + 1] == s[i]);
        };
    } else {
        // s[0].0 comes before k: keep the head, insert into the tail.
        lemma_lex_total(k, s[0].0);
        assert(lex_le(s[0].0, k));
        assert(sorted_strict(s.drop_first())) by {
            assert forall|i: int, j: int|
                0 <= i < j < s.drop_first().len() implies lex_lt(
                s.drop_first()[i].0,
                s.drop_first()[j].0,
            ) by {
                assert(s.drop_first()[i] == s[i + 1] && s.drop_first()[j] == s[j + 1]);
            };
        };
        lemma_spec_insert(s.drop_first(), k, v);
        let t = spec_insert(s.drop_first(), k, v);
        assert(r == seq![s[0]] + t);
        assert forall|i: int, j: int| 0 <= i < j < r.len() implies lex_lt(r[i].0, r[j].0) by {
            if i == 0 {
                assert(r[j] == t[j - 1]);
                assert(t.contains(t[j - 1]));
                if t[j - 1] == (k, v) {
                    assert(lex_lt(s[0].0, k));
                } else {
                    assert(s.drop_first().contains(t[j - 1]));
                    let m = choose|m: int|
                        0 <= m < s.drop_first().len() && s.drop_first()[m] == t[j - 1];
                    assert(s[m + 1] == t[j - 1]);
                    assert(lex_lt(s[0].0, s[m + 1].0));
                }
            } else {
                assert(r[i] == t[i - 1] && r[j] == t[j - 1]);
            }
        };
        assert(r.contains((k, v))) by {
            let m = choose|m: int| 0 <= m < t.len() && t[m] == (k, v);
            assert(r[m + 1] == (k, v));
        };
        assert forall|e: (Seq<u8>, Seq<u8>)| r.contains(e) implies (e == (k, v) || (s.contains(e)
            && e.0 != k)) by {
            let i = choose|i: int| 0 <= i < r.len() && r[i] == e;
            if i == 0 {
                assert(e == s[0]);
                assert(s[0].0 != k);
            } else {
                assert(t.contains(t[i - 1]));
                if t[i - 1] != (k, v) {
                    assert(s.drop_first().contains(t[i - 1]));
                    let m = choose|m: int|
                        0 <= m < s.drop_first().len() && s.drop_first()[m] == t[i - 1];
                    assert(s[m + 1] == e);
                }
            }
        };
        assert forall|e: (Seq<u8>, Seq<u8>)| s.contains(e) && e.0 != k implies r.contains(e) by {
            let i = choose|i: int| 0 <= i < s.len() && s[i] == e;
            if i == 0 {
                assert(r[0] == e);
            } else {
                assert(s.drop_first()[i - 1] == e);
                assert(s.drop_first().contains(e));
                assert(t.contains(e));
                let m = choose|m: int| 0 <= m < t.len() && t[m] == e;
                assert(r[m + 1] == e);
            }
        };
    }
}

pub proof fn lemma_spec_build(rs: Seq<(Seq<u8>, Seq<u8>)>)
    requires
        distinct_record_keys(rs),
    ensures
        sorted_strict(spec_build(rs)),
        forall|e: (Seq<u8>, Seq<u8>)| spec_build(rs).contains(e) <==> rs.contains(e),
    decreases rs.len(),
{
    if rs.len() > 0 {
        assert(distinct_record_keys(rs.drop_last())) by {
            assert forall|i: int, j: int|
                0 <= i < j < rs.drop_last().len() implies (#[trigger] rs.drop_last()[i]).0 != (
            #[trigger] rs.drop_last()[j]).0 by {
                assert(rs.drop_last()[i] == rs[i] && rs.drop_last()[j] == rs[j]);
            };
        };
        lemma_spec_build(rs.drop_last());
        let b = spec_build(rs.drop_last());
        let k = rs.last().0;
        let v = rs.last().1;
        lemma_spec_insert(b, k, v);
        assert(spec_build(rs) == spec_insert(b, k, v));
        assert forall|e: (Seq<u8>, Seq<u8>)| spec_build(rs).contains(e) implies rs.contains(e) by {
            assert(spec_insert(b, k, v).contains(e));
            if e == (k, v) {
                assert(rs[rs.len() - 1] == e);
            } else {
                assert(b.contains(e) && e.0 != k);
                assert(rs.drop_last().contains(e));
                let i = choose|i: int| 0 <= i < rs.drop_last().len() && rs.drop_last()[i] == e;
                assert(rs[i] == e);
            }
        };
        assert forall|e: (Seq<u8>, Seq<u8>)| rs.contains(e) implies spec_build(rs).contains(e) by {
            let i = choose|i: int| 0 <= i < rs.len() && rs[i] == e;
            if i == rs.len() - 1 {
                assert(e == (k, v));
                assert(spec_insert(b, k, v).contains(e));
            } else {
                assert(rs.drop_last()[i] == e);
                assert(rs.drop_last().contains(e));
                assert(b.contains(e));
                assert(e.0 != k) by {
                    assert(rs[i].0 != rs[rs.len() - 1].0);
                };
                assert(spec_insert(b, k, v).contains(e));
            }
        };
    }
}

pub open spec fn distinct_record_keys(rs: Seq<(Seq<u8>, Seq<u8>)>) -> bool {
    forall|i: int, j: int| 0 <= i < j < rs.len() ==> (#[trigger] rs[i]).0 != (#[trigger] rs[j]).0
}

pub proof fn lemma_sorted_unique(s1: Seq<(Seq<u8>, Seq<u8>)>, s2: Seq<(Seq<u8>, Seq<u8>)>)
    requires
        sorted_strict(s1),
        sorted_strict(s2),
        forall|e: (Seq<u8>, Seq<u8>)| s1.contains(e) <==> s2.contains(e),
    ensures
        s1 == s2,
    decreases s1.len(),
{
    if s1.len() == 0 {
        if s2.len() > 0 {
            assert(s2.contains(s2[0]));
            assert(s1.contains(s2[0]));
            assert(false);
        }
        assert(s1 =~= s2);
    } else {
        assert(s1.contains(s1[0]));
        assert(s2.contains(s1[0]));
        let j = choose|j: int| 0 <= j < s2.len() && s2[j] == s1[0];
        assert(s2.contains(s2[0]));
        assert(s1.contains(s2[0]));
        let i = choose|i: int| 0 <= i < s1.len() && s1[i] == s2[0];
        if i > 0 && j > 0 {
            assert(lex_lt(s1[0].0, s1[i].0));
            assert(lex_lt(s2[0].0, s2[j].0));
            assert(s1[i].0 == s2[0].0 && s2[j].0 == s1[0].0);
            lemma_lex_trans(s1[0].0, s1[i].0, s1[0].0);
            lemma_lex_antisym(s1[0].0, s1[i].0);
            assert(false);
        }
        assert(s1[0] == s2[0]);
        let t1 = s1.drop_first();
        let t2 = s2.drop_first();
        assert(sorted_strict(t1)) by {
            assert forall|a: int, b: int| 0 <= a < b < t1.len() implies lex_lt(t1[a].0, t1[b].0) by {
                assert(t1[a] == s1[a + 1] && t1[b] == s1[b + 1]);
            };
        };
        assert(sorted_strict(t2)) by {
            assert forall|a: int, b: int| 0 <= a < b < t2.len() implies lex_lt(t2[a].0, t2[b].0) by {
                assert(t2[a] == s2[a + 1] && t2[b] == s2[b + 1]);
            };
        };
        assert forall|e: (Seq<u8>, Seq<u8>)| t1.contains(e) implies t2.contains(e) by {
            let a = choose|a: int| 0 <= a < t1.len() && t1[a] == e;
            assert(s1[a + 1] == e);
            assert(lex_lt(s1[0].0, e.0));
            assert(s1.contains(e));
            assert(s2.contains(e));
            let b = choose|b: int| 0 <= b < s2.len() && s2[b] == e;
            if b == 0 {
                assert(e == s1[0]);
                assert(false);
            }
            assert(t2[b - 1] == e);
        };
        assert forall|e: (Seq<u8>, Seq<u8>)| t2.contains(e) implies t1.contains(e) by {
            let a = choose|a: int| 0 <= a < t2.len() && t2[a] == e;
            assert(s2[a + 1] == e);
            assert(lex_lt(s2[0].0, e.0));
            assert(s2.contains(e));
            assert(s1.contains(e));
            let b = choose|b: int| 0 <= b < s1.len() && s1[b] == e;
            if b == 0 {
                assert(e == s2[0]);
                assert(false);
            }
            assert(t1[b - 1] == e);
        };
        lemma_sorted_unique(t1, t2);
        assert forall|m: int| 0 <= m < s1.len() implies s1[m] == s2[m] by {
            if m > 0 {
                assert(t1[m - 1] == t2[m - 1]);
            }
        };
        assert(s1 =~= s2);
    }
}

proof fn lemma_spec_insert_skip(s: Seq<(Seq<u8>, Seq<u8>)>, k: Seq<u8>, v: Seq<u8>, i: int)
    requires
        0 <= i <= s.len(),
        forall|j: int| 0 <= j < i ==> lex_lt((#[trigger] s[j]).0, k),
    ensures
        spec_insert(s, k, v) == s.subrange(0, i) + spec_insert(s.skip(i), k, v),
    decreases i,
{
    if i == 0 {
        assert(s.skip(0) =~= s);
        assert(s.subrange(0, 0) + spec_insert(s, k, v) =~= spec_insert(s, k, v));
    } else {
        assert(lex_lt(s[0].0, k));
        assert(s[0].0 != k);
        if lex_lt(k, s[0].0) {
            lemma_lex_antisym(k, s[0].0);
            assert(false);
        }
        lemma_spec_insert_skip(s.drop_first(), k, v, i - 1);
        assert(s.drop_first().skip(i - 1) =~= s.skip(i));
        assert(spec_insert(s, k, v) == seq![s[0]] + spec_insert(s.drop_first(), k, v));
        assert(seq![s[0]] + (s.drop_first().subrange(0, i - 1) + spec_insert(s.skip(i), k, v))
            =~= s.subrange(0, i) + spec_insert(s.skip(i), k, v));
    }
}

fn find_pos(es: &Vec<(Vec<u8>, Vec<u8>)>, key: &Vec<u8>) -> (r: (usize, bool))
    ensures
        r.0 <= es@.len(),
        forall|j: int| 0 <= j < r.0 ==> lex_lt((#[trigger] pairs_view(es@)[j]).0, key@),
        r.1 ==> r.0 < es@.len() && pairs_view(es@)[r.0 as int].0 == key@,
        !r.1 && r.0 < es@.len() ==> pairs_view(es@)[r.0 as int].0 != key@ && !lex_le(
            pairs_view(es@)[r.0 as int].0,
            key@,
        ),
        !r.1 && r.0 == es@.len() ==> true,
        r.0 == es@.len() ==> !r.1,
{
    let mut i: usize = 0;
    while i < es.len()
        invariant
            i <= es@.len(),
            forall|j: int| 0 <= j < i ==> lex_lt((#[trigger] pairs_view(es@)[j]).0, key@),
        decreases es@.len() - i,
    {
        let eq = bytes_eq(&es[i].0, key);
        proof {
            assert(pairs_view(es@)[i as int].0 == es@[i as int].0@);
        }
        if eq {
            return (i, true);
        }
        let le = bytes_lex_le(&es[i].0, key);
        if !le {
            return (i, false);
        }
        i = i + 1;
    }
    (i, false)
}

/// Builds the record set: `insert` adds or overwrites entries, `finalize`
/// freezes the set into a queryable trie with its root digest.
pub struct TrieBuilder {
    entries: Vec<(Vec<u8>, Vec<u8>)>,
}

impl TrieBuilder {
    /// The entry set so far, as (key, value) byte strings, ordered by key.
    pub closed spec fn entries_view(self) -> Seq<(Seq<u8>, Seq<u8>)> {
        pairs_view(self.entries@)
    }

    #[verifier::type_invariant]
    closed spec fn wf(self) -> bool {
        sorted_strict(pairs_view(self.entries@)) && bounded_entries(pairs_view(self.entries@))
    }

    pub(crate) fn into_entries(self) -> (r: Vec<(Vec<u8>, Vec<u8>)>)
        ensures
            pairs_view(r@) == self.entries_view(),
            sorted_strict(pairs_view(r@)),
            bounded_entries(pairs_view(r@)),
    {
        proof {
            use_type_invariant(&self);
        }
        self.entries
    }

    pub fn new() -> (r: TrieBuilder)
        ensures
            r.entries_view() == Seq::<(Seq<u8>, Seq<u8>)>::empty(),
    {
        let r = TrieBuilder { entries: Vec::new() };
        proof {
            assert(pairs_view(r.entries@) =~= Seq::<(Seq<u8>, Seq<u8>)>::empty());
        }
        r
    }

    /// Adds an entry, overwriting any prior value under the same key.
    /// Rejects only the simultaneously empty key and value; every other
    /// pair is stored.
    pub fn insert(&mut self, key: Vec<u8>, value: Vec<u8>) -> (r: Result<(), BuildError>)
        requires
            key@.len() <= MAX_KEY_BYTES as int,
            value@.len() <= MAX_VALUE_BYTES as int,
        ensures
            match r {
                Ok(()) => (key@.len() > 0 || value@.len() > 0) && final(self).entries_view()
                    == spec_insert(old(self).entries_view(), key@, value@),
                Err(e) => e == BuildError::EmptyEntry && key@.len() == 0 && value@.len() == 0
                    && final(self).entries_view() == old(self).entries_view(),
            },
    {
        proof {
            use_type_invariant(&*self);
        }
        if key.len() == 0 && value.len() == 0 {
            return Err(BuildError::EmptyEntry);
        }
        let ghost pre = pairs_view(self.entries@);
        let mut tmp = TrieBuilder { entries: Vec::new() };
        core::mem::swap(self, &mut tmp);
        let TrieBuilder { entries: mut es } = tmp;
        let pos = find_pos(&es, &key);
        let i = pos.0;
        let replace = pos.1;
        proof {
            lemma_spec_insert_skip(pre, key@, value@, i as int);
            lemma_spec_insert(pre, key@, value@);
        }
        if replace {
            let _ = es.remove(i);
            es.insert(i, (key, value));
            proof {
                assert(pre.skip(i as int)[0].0 == key@);
                assert(spec_insert(pre.skip(i as int), key@, value@) =~= seq![(key@, value@)]
                    + pre.skip(i as int).drop_first());
                assert(pairs_view(es@) =~= pre.subrange(0, i as int) + spec_insert(
                    pre.skip(i as int),
                    key@,
                    value@,
                ));
            }
        } else {
            if i < es.len() {
                proof {
                    let ki = pre[i as int].0;
                    lemma_lex_total(key@, ki);
                    assert(lex_le(key@, ki));
                    assert(lex_lt(key@, ki));
                    assert(pre.skip(i as int)[0].0 == ki);
                    assert(spec_insert(pre.skip(i as int), key@, value@) =~= seq![(key@, value@)]
                        + pre.skip(i as int));
                }
                es.insert(i, (key, value));
                proof {
                    assert(pairs_view(es@) =~= pre.subrange(0, i as int) + spec_insert(
                        pre.skip(i as int),
                        key@,
                        value@,
                    ));
                }
            } else {
                es.push((key, value));
                proof {
                    assert(pre.skip(i as int) =~= Seq::<(Seq<u8>, Seq<u8>)>::empty());
                    assert(spec_insert(pre.skip(i as int), key@, value@) =~= seq![(key@, value@)]);
                    assert(pairs_view(es@) =~= pre.subrange(0, i as int) + spec_insert(
                        pre.skip(i as int),
                        key@,
                        value@,
                    ));
                }
            }
        }
        proof {
            assert(pairs_view(es@) == spec_insert(pre, key@, value@));
            assert(bounded_entries(pairs_view(es@))) by {
                assert forall|m: int|
                    0 <= m < pairs_view(es@).len() implies (#[trigger] pairs_view(es@)[m]).0.len()
                    <= MAX_KEY_BYTES as int && pairs_view(es@)[m].1.len()
                    <= MAX_VALUE_BYTES as int by {
                    let e = pairs_view(es@)[m];
                    assert(pairs_view(es@).contains(e));
                    if e != (key@, value@) {
                        assert(pre.contains(e));
                    }
                };
            };
        }
        *self = TrieBuilder { entries: es };
        Ok(())
    }
}

} // verus!
