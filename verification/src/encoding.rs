//! The label-encoding operation and its mathematical model.
//!
//! The model lives in three spec functions: [`first_index`] gives the
//! position of a value's first occurrence in a sequence, [`firsts`] gives the
//! distinct values of a sequence in order of first appearance, and [`encode`]
//! gives the encoded sequence itself: element `i` is mapped to the position of
//! `s[i]` within `firsts(s)`, which equals the number of distinct values that
//! appear before the first occurrence of `s[i]`.

use vstd::prelude::*;

verus! {

broadcast use vstd::seq_lib::group_seq_properties;

/// The position of the first occurrence of `v` in `s`.
///
/// Meaningful only when `s` contains `v`; on a sequence without `v` it
/// degenerates to `s.len()` (or more), which `lemma_first_index` rules out
/// for contained values.
pub open spec fn first_index<V>(s: Seq<V>, v: V) -> nat
    decreases s.len(),
{
    if s.len() == 0 {
        0
    } else if s[0] == v {
        0
    } else {
        1 + first_index(s.drop_first(), v)
    }
}

/// The distinct values of `s`, in order of first appearance.
pub open spec fn firsts<V>(s: Seq<V>) -> Seq<V>
    decreases s.len(),
{
    if s.len() == 0 {
        Seq::<V>::empty()
    } else {
        let pre = firsts(s.drop_last());
        if pre.contains(s.last()) {
            pre
        } else {
            pre.push(s.last())
        }
    }
}

/// First-appearance label encoding of `s`: position `i` holds the code of
/// `s[i]`, the number of distinct values that appear in `s` strictly before
/// the first occurrence of `s[i]`.
pub open spec fn encode<V>(s: Seq<V>) -> Seq<nat> {
    Seq::new(s.len(), |i: int| first_index(firsts(s), s[i]))
}

/// The encoded sequence always has the length of the input.
pub proof fn lemma_encode_len<V>(s: Seq<V>)
    ensures
        encode(s).len() == s.len(),
{
}

/// On a sequence that contains `v`, `first_index` lands on the first
/// occurrence of `v`: the entry there is `v` and every earlier entry differs.
pub proof fn lemma_first_index<V>(s: Seq<V>, v: V)
    requires
        s.contains(v),
    ensures
        first_index(s, v) < s.len(),
        s[first_index(s, v) as int] == v,
        forall|j: int| 0 <= j < first_index(s, v) ==> s[j] != v,
    decreases s.len(),
{
    if s[0] == v {
    } else {
        let i = choose|i: int| 0 <= i < s.len() && s[i] == v;
        assert(s.drop_first()[i - 1] == v);
        lemma_first_index(s.drop_first(), v);
        assert forall|j: int| 0 <= j < first_index(s, v) implies s[j] != v by {
            if j > 0 {
                assert(s.drop_first()[j - 1] == s[j]);
            }
        }
    }
}

/// `first_index` is pinned down by its characteristic property: a position
/// that holds `v` and is preceded by no `v` is the first index of `v`.
pub proof fn lemma_first_index_unique<V>(s: Seq<V>, v: V, j: int)
    requires
        0 <= j < s.len(),
        s[j] == v,
        forall|p: int| 0 <= p < j ==> s[p] != v,
    ensures
        first_index(s, v) == j,
    decreases j,
{
    if j == 0 {
    } else {
        assert(s[0] != v);
        assert(s.drop_first()[j - 1] == v);
        assert forall|p: int| 0 <= p < j - 1 implies s.drop_first()[p] != v by {
            assert(s.drop_first()[p] == s[p + 1]);
        }
        lemma_first_index_unique(s.drop_first(), v, j - 1);
    }
}

/// Appending an element does not disturb the first index of a value that is
/// already present, and a fresh appended value gets the old length as its
/// first index.
pub proof fn lemma_first_index_push<V>(s: Seq<V>, x: V, v: V)
    ensures
        s.contains(v) ==> first_index(s.push(x), v) == first_index(s, v),
        !s.contains(v) && v == x ==> first_index(s.push(x), v) == s.len(),
    decreases s.len(),
{
    if s.contains(v) {
        lemma_first_index(s, v);
        let f = first_index(s, v);
        assert(s.push(x)[f as int] == v);
        assert forall|p: int| 0 <= p < f implies s.push(x)[p] != v by {
            assert(s.push(x)[p] == s[p]);
        }
        lemma_first_index_unique(s.push(x), v, f as int);
    } else if v == x {
        assert(s.push(x)[s.len() as int] == v);
        assert forall|p: int| 0 <= p < s.len() implies s.push(x)[p] != v by {
            assert(s.push(x)[p] == s[p]);
        }
        lemma_first_index_unique(s.push(x), v, s.len() as int);
    }
}

/// `firsts(s)` holds exactly the values of `s`.
pub proof fn lemma_firsts_contains<V>(s: Seq<V>, v: V)
    ensures
        firsts(s).contains(v) <==> s.contains(v),
    decreases s.len(),
{
    if s.len() == 0 {
    } else {
        let s0 = s.drop_last();
        lemma_firsts_contains(s0, v);
        assert(s =~= s0.push(s.last()));
    }
}

/// `firsts(s)` lists each distinct value of `s` once.
pub proof fn lemma_firsts_no_dup<V>(s: Seq<V>)
    ensures
        firsts(s).no_duplicates(),
    decreases s.len(),
{
    if s.len() == 0 {
    } else {
        let s0 = s.drop_last();
        lemma_firsts_no_dup(s0);
        let pre = firsts(s0);
        if !pre.contains(s.last()) {
            assert forall|i: int, j: int|
                0 <= i < pre.push(s.last()).len() && 0 <= j < pre.push(s.last()).len() && i != j
                implies pre.push(s.last())[i] != pre.push(s.last())[j] by {
                if i < pre.len() && j < pre.len() {
                } else if i < pre.len() {
                    assert(pre.contains(pre[i]));
                } else {
                    assert(pre.contains(pre[j]));
                }
            }
        }
    }
}

/// Unfolding of `firsts` over `push`: a value already seen leaves the table
/// of distinct values unchanged, a fresh value is appended to it.
pub proof fn lemma_firsts_push<V>(s: Seq<V>, x: V)
    ensures
        firsts(s).contains(x) ==> firsts(s.push(x)) == firsts(s),
        !firsts(s).contains(x) ==> firsts(s.push(x)) == firsts(s).push(x),
{
    assert(s.push(x).drop_last() =~= s);
    assert(s.push(x).last() == x);
}

/// Decides equality of two optional text values: two missing markers are
/// equal, a missing marker differs from every text, and texts compare by
/// their characters.
fn value_eq(a: &Option<String>, b: &Option<String>) -> (r: bool)
    ensures
        r == (a.deep_view() == b.deep_view()),
{
    match (a, b) {
        (None, None) => true,
        (Some(x), Some(y)) => *x == *y,
        _ => false,
    }
}

/// Looks `v` up among the values seen so far and returns the position of its
/// occurrence, which is its code.
fn find_code(seen: &Vec<Option<String>>, v: &Option<String>) -> (found: Option<usize>)
    ensures
        match found {
            Some(j) => seen.deep_view().contains(v.deep_view()) && j < seen.len() && j as nat
                == first_index(seen.deep_view(), v.deep_view()),
            None => !seen.deep_view().contains(v.deep_view()),
        },
{
    let ghost sv = seen.deep_view();
    let mut j: usize = 0;
    while j < seen.len()
        invariant
            j <= seen.len(),
            sv == seen.deep_view(),
            sv.len() == seen.len(),
            forall|p: int| 0 <= p < j ==> sv[p] != v.deep_view(),
        decreases seen.len() - j,
    {
        if value_eq(&seen[j], v) {
            proof {
                assert(sv[j as int] == v.deep_view());
                lemma_first_index_unique(sv, v.deep_view(), j as int);
            }
            return Some(j);
        }
        j += 1;
    }
    None
}

/// Encodes a column of optional text values by order of first appearance:
/// the code of each element is the number of distinct values that appear
/// strictly before the element's own first occurrence.  A missing value is a
/// value of its own: it gets one code, reused by every later missing value.
pub fn encode_labels(values: &Vec<Option<String>>) -> (codes: Vec<usize>)
    ensures
        codes@.len() == values@.len(),
        codes@.map_values(|c: usize| c as nat) == encode(values.deep_view()),
{
    let ghost vs = values.deep_view();
    let mut seen: Vec<Option<String>> = Vec::new();
    let mut codes: Vec<usize> = Vec::new();
    let mut idx: usize = 0;
    proof {
        assert(vs.take(0) =~= Seq::<Option<Seq<char>>>::empty());
        assert(seen.deep_view() =~= firsts(vs.take(0)));
    }
    while idx < values.len()
        invariant
            idx <= values.len(),
            vs == values.deep_view(),
            vs.len() == values.len(),
            seen.deep_view() == firsts(vs.take(idx as int)),
            codes@.len() == idx,
            forall|i: int| 0 <= i < idx ==> codes@[i] as nat == first_index(
                firsts(vs.take(idx as int)),
                vs[i],
            ),
        decreases values.len() - idx,
    {
        let ghost pre = vs.take(idx as int);
        let ghost x = vs[idx as int];
        let v = &values[idx];
        let code: usize;
        match find_code(&seen, v) {
            Some(j) => {
                code = j;
                proof {
                    lemma_firsts_push(pre, x);
                }
            },
            None => {
                code = seen.len();
                proof {
                    lemma_firsts_push(pre, x);
                    lemma_first_index_push(firsts(pre), x, x);
                }
                let stored: Option<String> = match v {
                    None => None,
                    Some(s) => Some(s.clone()),
                };
                assert(stored.deep_view() == x);
                seen.push(stored);
                proof {
                    assert(seen.deep_view() =~= firsts(pre).push(x));
                }
            },
        }
        codes.push(code);
        proof {
            assert(vs.take(idx as int + 1) =~= pre.push(x));
            assert forall|i: int| 0 <= i < idx implies first_index(firsts(pre.push(x)), vs[i])
                == first_index(firsts(pre), vs[i]) by {
                assert(pre[i] == vs[i]);
                assert(pre.contains(vs[i]));
                lemma_firsts_contains(pre, vs[i]);
                lemma_firsts_push(pre, x);
                if !firsts(pre).contains(x) {
                    lemma_first_index_push(firsts(pre), x, vs[i]);
                }
            }
        }
        idx += 1;
    }
    proof {
        assert(vs.take(idx as int) =~= vs);
        assert(codes@.map_values(|c: usize| c as nat) =~= encode(vs));
    }
    codes
}

/// Looks a code up among the codes seen so far and returns the position of
/// its occurrence.
fn find_code_num(seen: &Vec<usize>, v: usize) -> (found: Option<usize>)
    ensures
        match found {
            Some(j) => seen@.contains(v) && j < seen.len() && j as nat == first_index(seen@, v),
            None => !seen@.contains(v),
        },
{
    let mut j: usize = 0;
    while j < seen.len()
        invariant
            j <= seen.len(),
            forall|p: int| 0 <= p < j ==> seen@[p] != v,
        decreases seen.len() - j,
    {
        if seen[j] == v {
            proof {
                lemma_first_index_unique(seen@, v, j as int);
            }
            return Some(j);
        }
        j += 1;
    }
    None
}

/// Encodes a sequence of unsigned integers by order of first appearance,
/// exactly as [`encode_labels`] encodes text values.  Feeding the output of
/// either encoder back through this function reproduces it unchanged.
pub fn encode_codes(values: &Vec<usize>) -> (codes: Vec<usize>)
    ensures
        codes@.len() == values@.len(),
        codes@.map_values(|c: usize| c as nat) == encode(values@),
{
    let ghost vs = values@;
    let mut seen: Vec<usize> = Vec::new();
    let mut codes: Vec<usize> = Vec::new();
    let mut idx: usize = 0;
    proof {
        assert(vs.take(0) =~= Seq::<usize>::empty());
        assert(seen@ =~= firsts(vs.take(0)));
    }
    while idx < values.len()
        invariant
            idx <= values.len(),
            vs == values@,
            seen@ == firsts(vs.take(idx as int)),
            codes@.len() == idx,
            forall|i: int| 0 <= i < idx ==> codes@[i] as nat == first_index(
                firsts(vs.take(idx as int)),
                vs[i],
            ),
        decreases values.len() - idx,
    {
        let ghost pre = vs.take(idx as int);
        let ghost x = vs[idx as int];
        let v = values[idx];
        let code: usize;
        match find_code_num(&seen, v) {
            Some(j) => {
                code = j;
                proof {
                    lemma_firsts_push(pre, x);
                }
            },
            None => {
                code = seen.len();
                proof {
                    lemma_firsts_push(pre, x);
                    lemma_first_index_push(firsts(pre), x, x);
                }
                seen.push(v);
                proof {
                    assert(seen@ =~= firsts(pre).push(x));
                }
            },
        }
        codes.push(code);
        proof {
            assert(vs.take(idx as int + 1) =~= pre.push(x));
            assert forall|i: int| 0 <= i < idx implies first_index(firsts(pre.push(x)), vs[i])
                == first_index(firsts(pre), vs[i]) by {
                assert(pre[i] == vs[i]);
                assert(pre.contains(vs[i]));
                lemma_firsts_contains(pre, vs[i]);
                lemma_firsts_push(pre, x);
                if !firsts(pre).contains(x) {
                    lemma_first_index_push(firsts(pre), x, vs[i]);
                }
            }
        }
        idx += 1;
    }
    proof {
        assert(vs.take(idx as int) =~= vs);
        assert(codes@.map_values(|c: usize| c as nat) =~= encode(vs));
    }
    codes
}

} // verus!
