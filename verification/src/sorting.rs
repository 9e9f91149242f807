use vstd::prelude::*;

use itertools::Itertools;

verus! {

/// Ascending order by code point; adjacent duplicates allowed.
pub open spec fn chars_sorted(s: Seq<char>) -> bool {
    forall|i: int, j: int| 0 <= i < j < s.len() ==> (s[i] as u32) <= (s[j] as u32)
}

/// Strictly ascending order by code point: sorted and duplicate-free.
pub open spec fn chars_sorted_strict(s: Seq<char>) -> bool {
    forall|i: int, j: int| 0 <= i < j < s.len() ==> (s[i] as u32) < (s[j] as u32)
}

/// Ascending order; adjacent duplicates allowed.
pub open spec fn ints_sorted(s: Seq<i32>) -> bool {
    forall|i: int, j: int| 0 <= i < j < s.len() ==> s[i] <= s[j]
}

/// Strictly ascending order: sorted and duplicate-free.
pub open spec fn ints_sorted_strict(s: Seq<i32>) -> bool {
    forall|i: int, j: int| 0 <= i < j < s.len() ==> s[i] < s[j]
}

/// Relies on itertools' `Itertools::sorted`: the items come back in
/// ascending order and are exactly the items that went in.
#[verifier::external_body]
pub(crate) fn sorted_chars(v: Vec<char>) -> (r: Vec<char>)
    ensures
        r@.to_multiset() == v@.to_multiset(),
        chars_sorted(r@),
{
    v.into_iter().sorted().collect()
}

/// Relies on itertools' `Itertools::sorted_unstable`: the items come back
/// in ascending order and are exactly the items that went in.
#[verifier::external_body]
pub(crate) fn sorted_ints(v: Vec<i32>) -> (r: Vec<i32>)
    ensures
        r@.to_multiset() == v@.to_multiset(),
        ints_sorted(r@),
{
    v.into_iter().sorted_unstable().collect()
}

/// Appending one item adds exactly that item to the set of items.
pub proof fn lemma_to_set_push<A>(s: Seq<A>, x: A)
    ensures
        s.push(x).to_set() == s.to_set().insert(x),
{
    assert forall|a: A| s.push(x).contains(a) implies s.to_set().insert(x).contains(a) by {
        let k = choose|k: int| 0 <= k < s.push(x).len() && s.push(x)[k] == a;
        if k < s.len() {
            assert(s[k] == a);
        }
    }
    assert forall|a: A| s.to_set().insert(x).contains(a) implies s.push(x).contains(a) by {
        if a == x {
            assert(s.push(x)[s.len() as int] == a);
        } else {
            let k = choose|k: int| 0 <= k < s.len() && s[k] == a;
            assert(s.push(x)[k] == a);
        }
    }
    assert(s.push(x).to_set() =~= s.to_set().insert(x));
}

/// Sequences with one multiset hold the same items.
pub proof fn lemma_same_multiset_same_items<A>(s1: Seq<A>, s2: Seq<A>)
    requires
        s1.to_multiset() == s2.to_multiset(),
    ensures
        s1.to_set() == s2.to_set(),
        s1.len() == s2.len(),
{
    broadcast use vstd::seq_lib::group_to_multiset_ensures;

    assert forall|a: A| s1.contains(a) <==> s2.contains(a) by {
        assert(s1.contains(a) <==> s1.to_multiset().count(a) > 0);
        assert(s2.contains(a) <==> s2.to_multiset().count(a) > 0);
    }
    assert(s1.to_set() =~= s2.to_set());
    assert(s1.len() == s1.to_multiset().len());
    assert(s2.len() == s2.to_multiset().len());
}

/// Drop the adjacent duplicates of a sorted character sequence: the result
/// is strictly sorted and holds the same items.
pub(crate) fn dedup_sorted_chars(v: Vec<char>) -> (r: Vec<char>)
    requires
        chars_sorted(v@),
    ensures
        chars_sorted_strict(r@),
        r@.to_set() == v@.to_set(),
        r@.no_duplicates(),
{
    let mut out: Vec<char> = Vec::new();
    let mut i: usize = 0;
    #[verifier::loop_isolation(false)]
    while i < v.len()
        invariant
            i <= v@.len(),
            chars_sorted_strict(out@),
            out@.to_set() == v@.take(i as int).to_set(),
            i > 0 && out@.len() > 0 ==> out@.last() == v@[i - 1],
            out@.len() > 0 ==> i > 0,
            i > 0 ==> out@.len() > 0,
        decreases v@.len() - i,
    {
        let c = v[i];
        let ghost prev_out = out@;
        if out.len() == 0 {
            out.push(c);
        } else {
            let last = out[out.len() - 1];
            if last as u32 != c as u32 {
                proof {
                    assert((v@[i - 1] as u32) <= (c as u32));
                }
                out.push(c);
            }
        }
        proof {
            assert(v@.take(i + 1) =~= v@.take(i as int).push(c));
            lemma_to_set_push(v@.take(i as int), c);
            if prev_out.len() > 0 && (prev_out.last() as u32) == (c as u32) {
                vstd::utf8::char_u32_cast(prev_out.last(), prev_out.last() as u32);
                vstd::utf8::char_u32_cast(c, c as u32);
                assert(prev_out.last() == c);
                assert(prev_out.contains(c));
                assert(prev_out.to_set().contains(c));
                assert(prev_out.to_set().insert(c) =~= prev_out.to_set());
            } else {
                assert(out@ == prev_out.push(c));
                lemma_to_set_push(prev_out, c);
            }
        }
        i = i + 1;
    }
    proof {
        assert(v@.take(v@.len() as int) =~= v@);
        assert(out@.no_duplicates()) by {
            assert forall|p: int, q: int|
                0 <= p < out@.len() && 0 <= q < out@.len() && p != q implies out@[p] != out@[q] by {
                if p < q {
                    assert((out@[p] as u32) < (out@[q] as u32));
                } else {
                    assert((out@[q] as u32) < (out@[p] as u32));
                }
            }
        }
    }
    out
}

/// Drop the adjacent duplicates of a sorted integer sequence: the result
/// is strictly sorted and holds the same items.
pub(crate) fn dedup_sorted_ints(v: Vec<i32>) -> (r: Vec<i32>)
    requires
        ints_sorted(v@),
    ensures
        ints_sorted_strict(r@),
        r@.to_set() == v@.to_set(),
{
    let mut out: Vec<i32> = Vec::new();
    let mut i: usize = 0;
    #[verifier::loop_isolation(false)]
    while i < v.len()
        invariant
            i <= v@.len(),
            ints_sorted_strict(out@),
            out@.to_set() == v@.take(i as int).to_set(),
            i > 0 && out@.len() > 0 ==> out@.last() == v@[i - 1],
            out@.len() > 0 ==> i > 0,
            i > 0 ==> out@.len() > 0,
        decreases v@.len() - i,
    {
        let c = v[i];
        let ghost prev_out = out@;
        if out.len() == 0 {
            out.push(c);
        } else {
            let last = out[out.len() - 1];
            if last != c {
                proof {
                    assert(v@[i - 1] <= c);
                }
                out.push(c);
            }
        }
        proof {
            assert(v@.take(i + 1) =~= v@.take(i as int).push(c));
            lemma_to_set_push(v@.take(i as int), c);
            if prev_out.len() > 0 && prev_out.last() == c {
                assert(prev_out.contains(c));
                assert(prev_out.to_set().contains(c));
                assert(prev_out.to_set().insert(c) =~= prev_out.to_set());
            } else {
                assert(out@ == prev_out.push(c));
                lemma_to_set_push(prev_out, c);
            }
        }
        i = i + 1;
    }
    proof {
        assert(v@.take(v@.len() as int) =~= v@);
    }
    out
}

/// Law: a strictly sorted character sequence is settled by the set of its
/// items — two strictly sorted sequences holding the same items are equal.
pub proof fn lemma_chars_sorted_strict_unique(s1: Seq<char>, s2: Seq<char>)
    requires
        chars_sorted_strict(s1),
        chars_sorted_strict(s2),
        s1.to_set() == s2.to_set(),
    ensures
        s1 == s2,
    decreases s1.len(),
{
    if s1.len() == 0 {
        if s2.len() > 0 {
            assert(s2.to_set().contains(s2[0]));
            assert(s1.contains(s2[0]));
            assert(false);
        }
        assert(s1 =~= s2);
    } else {
        assert(s1.to_set().contains(s1[0]));
        assert(s2.contains(s1[0]));
        assert(s2.to_set().contains(s2[0]));
        assert(s1.contains(s2[0]));
        let i = choose|i: int| 0 <= i < s2.len() && s2[i] == s1[0];
        let j = choose|j: int| 0 <= j < s1.len() && s1[j] == s2[0];
        assert((s2[0] as u32) <= (s2[i] as u32) && (s1[0] as u32) <= (s1[j] as u32));
        vstd::utf8::char_u32_cast(s1[0], s1[0] as u32);
        vstd::utf8::char_u32_cast(s2[0], s2[0] as u32);
        assert(s1[0] == s2[0]);
        let t1 = s1.skip(1);
        let t2 = s2.skip(1);
        assert(t1.to_set() =~= t2.to_set()) by {
            assert forall|a: char| t1.contains(a) implies t2.contains(a) by {
                let p = choose|p: int| 0 <= p < t1.len() && t1[p] == a;
                assert(s1[p + 1] == a);
                assert((s1[0] as u32) < (a as u32));
                assert(s1.contains(a));
                assert(s2.to_set().contains(a));
                let q = choose|q: int| 0 <= q < s2.len() && s2[q] == a;
                assert(q != 0);
                assert(t2[q - 1] == a);
            }
            assert forall|a: char| t2.contains(a) implies t1.contains(a) by {
                let p = choose|p: int| 0 <= p < t2.len() && t2[p] == a;
                assert(s2[p + 1] == a);
                assert((s2[0] as u32) < (a as u32));
                assert(s2.contains(a));
                assert(s1.to_set().contains(a));
                let q = choose|q: int| 0 <= q < s1.len() && s1[q] == a;
                assert(q != 0);
                assert(t1[q - 1] == a);
            }
        }
        assert(chars_sorted_strict(t1)) by {
            assert forall|p: int, q: int| 0 <= p < q < t1.len() implies (t1[p] as u32) < (
            t1[q] as u32) by {
                assert(t1[p] == s1[p + 1] && t1[q] == s1[q + 1]);
            }
        }
        assert(chars_sorted_strict(t2)) by {
            assert forall|p: int, q: int| 0 <= p < q < t2.len() implies (t2[p] as u32) < (
            t2[q] as u32) by {
                assert(t2[p] == s2[p + 1] && t2[q] == s2[q + 1]);
            }
        }
        lemma_chars_sorted_strict_unique(t1, t2);
        assert(s1.len() == s2.len());
        assert forall|k: int| 0 <= k < s1.len() implies s1[k] == s2[k] by {
            if k > 0 {
                assert(t1[k - 1] == t2[k - 1]);
                assert(s1[k] == t1[k - 1] && s2[k] == t2[k - 1]);
            }
        }
        assert(s1 =~= s2);
    }
}

/// Law: a strictly sorted sequence is settled by the set of its items —
/// two strictly sorted sequences holding the same items are equal.
pub proof fn lemma_sorted_strict_unique(s1: Seq<i32>, s2: Seq<i32>)
    requires
        ints_sorted_strict(s1),
        ints_sorted_strict(s2),
        s1.to_set() == s2.to_set(),
    ensures
        s1 == s2,
    decreases s1.len(),
{
    broadcast use vstd::set_lib::group_set_properties;

    if s1.len() == 0 {
        if s2.len() > 0 {
            assert(s2.to_set().contains(s2[0]));
            assert(s1.contains(s2[0]));
            assert(false);
        }
        assert(s1 =~= s2);
    } else {
        assert(s1.to_set().contains(s1[0]));
        assert(s2.contains(s1[0]));
        assert(s2.to_set().contains(s2[0]));
        assert(s1.contains(s2[0]));
        let i = choose|i: int| 0 <= i < s2.len() && s2[i] == s1[0];
        let j = choose|j: int| 0 <= j < s1.len() && s1[j] == s2[0];
        assert(s2[0] <= s2[i] && s1[0] <= s1[j]);
        assert(s1[0] == s2[0]);
        let t1 = s1.skip(1);
        let t2 = s2.skip(1);
        assert(t1.to_set() =~= t2.to_set()) by {
            assert forall|a: i32| t1.contains(a) implies t2.contains(a) by {
                let p = choose|p: int| 0 <= p < t1.len() && t1[p] == a;
                assert(s1[p + 1] == a);
                assert(s1[0] < a);
                assert(s1.contains(a));
                assert(s2.to_set().contains(a));
                let q = choose|q: int| 0 <= q < s2.len() && s2[q] == a;
                assert(q != 0);
                assert(t2[q - 1] == a);
            }
            assert forall|a: i32| t2.contains(a) implies t1.contains(a) by {
                let p = choose|p: int| 0 <= p < t2.len() && t2[p] == a;
                assert(s2[p + 1] == a);
                assert(s2[0] < a);
                assert(s2.contains(a));
                assert(s1.to_set().contains(a));
                let q = choose|q: int| 0 <= q < s1.len() && s1[q] == a;
                assert(q != 0);
                assert(t1[q - 1] == a);
            }
        }
        assert(ints_sorted_strict(t1)) by {
            assert forall|p: int, q: int| 0 <= p < q < t1.len() implies t1[p] < t1[q] by {
                assert(t1[p] == s1[p + 1] && t1[q] == s1[q + 1]);
            }
        }
        assert(ints_sorted_strict(t2)) by {
            assert forall|p: int, q: int| 0 <= p < q < t2.len() implies t2[p] < t2[q] by {
                assert(t2[p] == s2[p + 1] && t2[q] == s2[q + 1]);
            }
        }
        lemma_sorted_strict_unique(t1, t2);
        assert(s1.len() == s2.len());
        assert forall|k: int| 0 <= k < s1.len() implies s1[k] == s2[k] by {
            if k > 0 {
                assert(t1[k - 1] == t2[k - 1]);
                assert(s1[k] == t1[k - 1] && s2[k] == t2[k - 1]);
            }
        }
        assert(s1 =~= s2);
    }
}

} // verus!
