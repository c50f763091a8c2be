//! Keeping tables sorted by a two-part text key as entries are added.

use vstd::prelude::*;
use crate::text::{lemma_lt_asymmetric, lemma_lt_total, lemma_lt_transitive, seq_lt};

verus! {

/// Lexicographic order on two-part keys, as Rust orders a pair of strings.
pub open spec fn key_lt(a: (Seq<char>, Seq<char>), b: (Seq<char>, Seq<char>)) -> bool {
    seq_lt(a.0, b.0) || (a.0 == b.0 && seq_lt(a.1, b.1))
}

pub open spec fn key_le(a: (Seq<char>, Seq<char>), b: (Seq<char>, Seq<char>)) -> bool {
    key_lt(a, b) || a == b
}

pub proof fn lemma_key_transitive(a: (Seq<char>, Seq<char>), b: (Seq<char>, Seq<char>), c: (
    Seq<char>,
    Seq<char>,
))
    requires
        key_lt(a, b),
        key_lt(b, c),
    ensures
        key_lt(a, c),
{
    if seq_lt(a.0, b.0) && seq_lt(b.0, c.0) {
        lemma_lt_transitive(a.0, b.0, c.0);
    } else if seq_lt(a.1, b.1) && seq_lt(b.1, c.1) && a.0 == b.0 && b.0 == c.0 {
        lemma_lt_transitive(a.1, b.1, c.1);
    }
}

pub proof fn lemma_key_total(a: (Seq<char>, Seq<char>), b: (Seq<char>, Seq<char>))
    ensures
        key_lt(a, b) || a == b || key_lt(b, a),
{
    lemma_lt_total(a.0, b.0);
    lemma_lt_total(a.1, b.1);
}

pub proof fn lemma_key_le_transitive(a: (Seq<char>, Seq<char>), b: (Seq<char>, Seq<char>), c: (
    Seq<char>,
    Seq<char>,
))
    requires
        key_le(a, b),
        key_le(b, c),
    ensures
        key_le(a, c),
        key_lt(a, b) ==> key_lt(a, c),
        key_lt(b, c) ==> key_lt(a, c),
{
    if key_lt(a, b) && key_lt(b, c) {
        lemma_key_transitive(a, b, c);
    }
}

/// A table entry ordered by a two-part text key.
pub trait SortKey: Sized {
    spec fn sort_key(&self) -> (Seq<char>, Seq<char>);

    fn key_less(&self, other: &Self) -> (r: bool)
        ensures
            r == key_lt(self.sort_key(), other.sort_key()),
    ;
}

pub open spec fn sorted_by_key<T: SortKey>(s: Seq<T>) -> bool {
    forall|i: int, j: int| 0 <= i < j < s.len() ==> key_le(#[trigger] s[i].sort_key(), #[trigger] s[j].sort_key())
}

/// Inserts `x` after every entry whose key is not above its own, so that
/// a table kept this way stays sorted and entries with equal keys keep the
/// order in which they came.
pub fn insert_sorted<T: SortKey>(v: &mut Vec<T>, x: T)
    requires
        sorted_by_key(old(v)@),
    ensures
        sorted_by_key(final(v)@),
        exists|k: int| 0 <= k <= old(v)@.len() && final(v)@ == old(v)@.insert(k, x),
{
    let n = v.len();
    let mut k: usize = 0;
    while k < n && !x.key_less(&v[k])
        invariant
            k <= n,
            n == v@.len(),
            v@ == old(v)@,
            sorted_by_key(v@),
            forall|m: int| 0 <= m < k ==> key_le(#[trigger] v@[m].sort_key(), x.sort_key()),
        decreases n - k,
    {
        proof {
            lemma_key_total(x.sort_key(), v@[k as int].sort_key());
        }
        k += 1;
    }
    let ghost old_v = v@;
    proof {
        if k < n {
            assert forall|m: int| k <= m < n implies key_lt(x.sort_key(), #[trigger] old_v[m].sort_key()) by {
                if m > k {
                    lemma_key_le_transitive(x.sort_key(), old_v[k as int].sort_key(), old_v[m].sort_key());
                }
            }
        }
    }
    v.insert(k, x);
    proof {
        let nv = v@;
        assert(nv == old_v.insert(k as int, x));
        assert forall|i: int, j: int| 0 <= i < j < nv.len() implies key_le(#[trigger] nv[i].sort_key(), #[trigger] nv[j].sort_key()) by {
            if j < k {
                assert(nv[i] == old_v[i] && nv[j] == old_v[j]);
            } else if j == k {
                assert(nv[i] == old_v[i]);
            } else if i < k {
                assert(nv[i] == old_v[i] && nv[j] == old_v[j - 1]);
                lemma_key_le_transitive(old_v[i].sort_key(), x.sort_key(), old_v[j - 1].sort_key());
            } else if i == k {
                assert(nv[j] == old_v[j - 1]);
            } else {
                assert(nv[i] == old_v[i - 1] && nv[j] == old_v[j - 1]);
            }
        }
    }
}

/// Inserting into a sequence adds one copy of the element to its multiset.
pub proof fn lemma_insert_multiset<A>(s: Seq<A>, k: int, x: A)
    requires
        0 <= k <= s.len(),
    ensures
        s.insert(k, x).to_multiset() == s.to_multiset().insert(x),
{
    broadcast use vstd::seq_lib::group_to_multiset_ensures;
    let t = s.insert(k, x);
    assert(t.remove(k) =~= s);
    assert(t[k] == x);
    assert(t.to_multiset().count(x) > 0);
    assert(t.to_multiset().remove(x) == s.to_multiset());
    assert(t.to_multiset() =~= s.to_multiset().insert(x));
}

} // verus!
