//! The guarantees of first-appearance label encoding, stated and proved once
//! over the model in [`crate::encoding`].
//!
//! Together these say: the output has the input's length and the input's
//! equality pattern, the codes it assigns are exactly `{0, …, k−1}` for `k`
//! distinct input values, a smaller code always makes its first appearance
//! before a greater one, and the encoding is idempotent — the output, taken
//! as a new input, encodes to itself.

use vstd::prelude::*;

use crate::encoding::encode;
use crate::encoding::first_index;
use crate::encoding::firsts;
use crate::encoding::lemma_first_index;
use crate::encoding::lemma_first_index_push;
use crate::encoding::lemma_first_index_unique;
use crate::encoding::lemma_firsts_contains;
use crate::encoding::lemma_firsts_no_dup;
use crate::encoding::lemma_firsts_push;

verus! {

broadcast use vstd::seq_lib::group_seq_properties;

/// Within one call, two positions carry the same code exactly when they carry
/// equal input values.
pub proof fn lemma_encode_same_code<V>(s: Seq<V>, i: int, j: int)
    requires
        0 <= i < s.len(),
        0 <= j < s.len(),
    ensures
        (s[i] == s[j]) <==> (encode(s)[i] == encode(s)[j]),
{
    assert(s.contains(s[i]));
    assert(s.contains(s[j]));
    lemma_firsts_contains(s, s[i]);
    lemma_firsts_contains(s, s[j]);
    lemma_first_index(firsts(s), s[i]);
    lemma_first_index(firsts(s), s[j]);
}

/// The codes assigned are exactly `{0, …, k−1}`, where `k` is the number of
/// distinct values of the input: every code is below `k`, every integer below
/// `k` occurs as a code, and `k` counts the distinct input values.
pub proof fn lemma_encode_codes_dense<V>(s: Seq<V>)
    ensures
        forall|i: int| 0 <= i < s.len() ==> #[trigger] encode(s)[i] < firsts(s).len(),
        forall|c: nat| c < firsts(s).len() ==> #[trigger] encode(s).contains(c),
        firsts(s).len() == s.to_set().len(),
{
    assert forall|i: int| 0 <= i < s.len() implies #[trigger] encode(s)[i] < firsts(s).len() by {
        assert(s.contains(s[i]));
        lemma_firsts_contains(s, s[i]);
        lemma_first_index(firsts(s), s[i]);
    }
    assert forall|c: nat| c < firsts(s).len() implies #[trigger] encode(s).contains(c) by {
        lemma_code_first_occurrence(s, c);
    }
    lemma_firsts_no_dup(s);
    firsts(s).unique_seq_to_set();
    assert(firsts(s).to_set() =~= s.to_set()) by {
        assert forall|v: V| #[trigger] firsts(s).contains(v) <==> s.contains(v) by {
            lemma_firsts_contains(s, v);
        }
    }
}

/// The code of the `c`-th distinct value makes its first appearance in the
/// output exactly where the value itself makes its first appearance in the
/// input.
pub proof fn lemma_code_first_occurrence<V>(s: Seq<V>, c: nat)
    requires
        c < firsts(s).len(),
    ensures
        encode(s).contains(c),
        s.contains(firsts(s)[c as int]),
        first_index(encode(s), c) == first_index(s, firsts(s)[c as int]),
{
    let v = firsts(s)[c as int];
    lemma_firsts_no_dup(s);
    assert(firsts(s).contains(v));
    lemma_firsts_contains(s, v);
    lemma_first_index(s, v);
    let p = first_index(s, v);
    assert forall|q: int| 0 <= q < c implies firsts(s)[q] != v by {}
    lemma_first_index_unique(firsts(s), v, c as int);
    assert(encode(s)[p as int] == c);
    assert forall|q: int| 0 <= q < p implies encode(s)[q] != c by {
        assert(s[q] != v);
        assert(s.contains(s[q]));
        lemma_firsts_contains(s, s[q]);
        lemma_first_index(firsts(s), s[q]);
    }
    lemma_first_index_unique(encode(s), c, p as int);
}

/// The distinct values stand in `firsts` in the order of their first
/// occurrences in the input.
pub proof fn lemma_firsts_order<V>(s: Seq<V>, c1: int, c2: int)
    requires
        0 <= c1 < c2 < firsts(s).len(),
    ensures
        first_index(s, firsts(s)[c1]) < first_index(s, firsts(s)[c2]),
    decreases s.len(),
{
    let s0 = s.drop_last();
    let x = s.last();
    assert(s =~= s0.push(x));
    lemma_firsts_push(s0, x);
    lemma_firsts_contains(s0, x);
    if firsts(s0).contains(x) || c2 < firsts(s0).len() {
        lemma_firsts_order(s0, c1, c2);
        let v1 = firsts(s0)[c1];
        let v2 = firsts(s0)[c2];
        assert(firsts(s0).contains(v1));
        assert(firsts(s0).contains(v2));
        lemma_firsts_contains(s0, v1);
        lemma_firsts_contains(s0, v2);
        lemma_first_index_push(s0, x, v1);
        lemma_first_index_push(s0, x, v2);
    } else {
        lemma_first_index_push(s0, x, x);
        let v1 = firsts(s0)[c1];
        assert(firsts(s0).contains(v1));
        lemma_firsts_contains(s0, v1);
        lemma_first_index(s0, v1);
        lemma_first_index_push(s0, x, v1);
    }
}

/// A smaller code makes its first appearance in the output at or before the
/// first appearance of any greater code.
pub proof fn lemma_encode_first_occurrences_ordered<V>(s: Seq<V>, c1: nat, c2: nat)
    requires
        c1 <= c2 < firsts(s).len(),
    ensures
        encode(s).contains(c1),
        encode(s).contains(c2),
        first_index(encode(s), c1) <= first_index(encode(s), c2),
{
    lemma_code_first_occurrence(s, c1);
    lemma_code_first_occurrence(s, c2);
    if c1 < c2 {
        lemma_firsts_order(s, c1 as int, c2 as int);
    }
}

/// The distinct codes of an encoded sequence, in order of first appearance,
/// are `0, 1, …, k−1` themselves.
pub proof fn lemma_firsts_of_encode<V>(s: Seq<V>)
    ensures
        firsts(encode(s)) == Seq::new(firsts(s).len(), |c: int| c as nat),
    decreases s.len(),
{
    let k = firsts(s).len();
    if s.len() == 0 {
        assert(encode(s) =~= Seq::<nat>::empty());
        assert(firsts(encode(s)) =~= Seq::new(k, |c: int| c as nat));
    } else {
        let s0 = s.drop_last();
        let x = s.last();
        assert(s =~= s0.push(x));
        lemma_firsts_of_encode(s0);
        lemma_firsts_push(s0, x);
        lemma_firsts_contains(s0, x);
        let k0 = firsts(s0).len();
        let id0 = Seq::new(k0, |c: int| c as nat);
        assert(encode(s).drop_last() =~= encode(s0)) by {
            assert forall|i: int| 0 <= i < s0.len() implies encode(s)[i] == encode(s0)[i] by {
                assert(s0[i] == s[i]);
                assert(s0.contains(s0[i]));
                lemma_firsts_contains(s0, s0[i]);
                if !firsts(s0).contains(x) {
                    lemma_first_index_push(firsts(s0), x, s0[i]);
                }
            }
        }
        let last_code = encode(s).last();
        if firsts(s0).contains(x) {
            lemma_first_index(firsts(s0), x);
            assert(id0[last_code as int] == last_code);
            assert(id0.contains(last_code));
            assert(firsts(encode(s)) =~= Seq::new(k, |c: int| c as nat));
        } else {
            lemma_first_index_push(firsts(s0), x, x);
            assert(last_code == k0);
            assert(!id0.contains(last_code)) by {
                assert forall|i: int| 0 <= i < id0.len() implies id0[i] != last_code by {}
            }
            assert(firsts(encode(s)) =~= id0.push(k0 as nat));
            assert(id0.push(k0 as nat) =~= Seq::new(k, |c: int| c as nat));
        }
    }
}

/// Idempotence under relabeling: the output of `encode`, taken as a new input
/// sequence, encodes to itself — its codes are already dense and ordered by
/// first appearance.
pub proof fn lemma_encode_idempotent<V>(s: Seq<V>)
    ensures
        encode(encode(s)) == encode(s),
{
    let t = encode(s);
    let k = firsts(s).len();
    lemma_firsts_of_encode(s);
    let id = Seq::new(k, |c: int| c as nat);
    assert forall|i: int| 0 <= i < t.len() implies encode(t)[i] == t[i] by {
        assert(s.contains(s[i]));
        lemma_firsts_contains(s, s[i]);
        lemma_first_index(firsts(s), s[i]);
        assert(t[i] < k);
        assert(id[t[i] as int] == t[i]);
        assert forall|p: int| 0 <= p < t[i] implies id[p] != t[i] by {}
        lemma_first_index_unique(id, t[i], t[i] as int);
    }
    assert(encode(t) =~= t);
}

/// An empty input encodes to an empty output.
pub proof fn lemma_encode_empty<V>(s: Seq<V>)
    requires
        s.len() == 0,
    ensures
        encode(s) == Seq::<nat>::empty(),
{
    assert(encode(s) =~= Seq::<nat>::empty());
}

} // verus!
