use vstd::prelude::*;

use vstd::arithmetic::power2::pow2;

use crate::boolean_tree::ParseError;
use crate::boolean_tree::is_variable_token;
use crate::sorting::dedup_sorted_ints;
use crate::sorting::ints_sorted_strict;
use crate::sorting::lemma_to_set_push;
use crate::sorting::sorted_ints;

verus! {

/// The subset of `s` that subset index `j` selects: the binary digits of
/// `j`, most significant first, choose the items in order, so index `0` is
/// the empty set, odd indices hold the last item, and the indices run in
/// the recursive exclude-before-include order.
pub open spec fn subset_at(s: Seq<i32>, j: nat) -> Seq<i32>
    recommends
        j < pow2(s.len() as nat),
    decreases s.len(),
{
    if s.len() == 0 {
        Seq::empty()
    } else if j < pow2((s.len() - 1) as nat) {
        subset_at(s.skip(1), j)
    } else {
        seq![s[0]] + subset_at(s.skip(1), (j - pow2((s.len() - 1) as nat)) as nat)
    }
}

/// Every subset of `n` distinct items, in the fixed enumeration order:
/// `2^n` rows, row `j` holding exactly the items that `subset_at` selects.
pub fn powerset(set: Vec<i32>) -> (r: Vec<Vec<i32>>)
    ensures
        r@.len() == pow2(set@.len() as nat),
        forall|j: int| 0 <= j < r@.len() ==> (#[trigger] r@[j])@ == subset_at(set@, j as nat),
{
    let mut current: Vec<i32> = Vec::new();
    let mut output: Vec<Vec<i32>> = Vec::new();
    powerset_rec(&set, 0, &mut current, &mut output);
    proof {
        assert(set@.skip(0) =~= set@);
        assert forall|j: int| 0 <= j < output@.len() implies (#[trigger] output@[j])@ == subset_at(
            set@,
            j as nat,
        ) by {
            assert((output@[j])@ == Seq::<i32>::empty() + subset_at(set@.skip(0), j as nat));
            assert(Seq::<i32>::empty() + subset_at(set@, j as nat) =~= subset_at(set@, j as nat));
        }
    }
    output
}

/// One step of the powerset enumeration: every subset of the items from
/// position `i` on, appended to the output under the current prefix,
/// excluding `set[i]` before including it.
fn powerset_rec(set: &Vec<i32>, i: usize, current: &mut Vec<i32>, output: &mut Vec<Vec<i32>>)
    requires
        i <= set@.len(),
    ensures
        final(current)@ == old(current)@,
        final(output)@.len() == old(output)@.len() + pow2((set@.len() - i) as nat),
        forall|j: int| 0 <= j < old(output)@.len() ==> #[trigger] final(output)@[j] == old(output)@[j],
        forall|j: int|
            old(output)@.len() <= j < final(output)@.len() ==> (#[trigger] final(output)@[j])@
                == old(current)@ + subset_at(set@.skip(i as int), (j - old(output)@.len()) as nat),
    decreases set@.len() - i,
{
    let ghost prefix = current@;
    let ghost base = output@.len() as int;
    let ghost rem = (set@.len() - i) as nat;
    if i == set.len() {
        let row = clone_ints(current);
        output.push(row);
        proof {
            assert(pow2(0) == 1) by {
                vstd::arithmetic::power2::lemma2_to64();
            }
            assert(set@.skip(i as int).len() == 0);
            assert(prefix + subset_at(set@.skip(i as int), 0) =~= prefix);
        }
    } else {
        proof {
            vstd::arithmetic::power2::lemma_pow2_unfold(rem);
        }
        let ghost half = pow2((rem - 1) as nat);
        powerset_rec(set, i + 1, current, output);
        let ghost mid = output@;
        current.push(set[i]);
        powerset_rec(set, i + 1, current, output);
        let _ = current.pop();
        proof {
            assert(current@ =~= prefix);
            let tail = set@.skip(i as int);
            assert(tail.skip(1) =~= set@.skip(i + 1));
            assert(tail[0] == set@[i as int]);
            assert forall|j: int|
                base <= j < output@.len() implies (#[trigger] output@[j])@ == prefix + subset_at(
                tail,
                (j - base) as nat,
            ) by {
                let d = (j - base) as nat;
                if d < half {
                    assert(output@[j] == mid[j]);
                    assert((mid[j])@ == prefix + subset_at(set@.skip(i + 1), d));
                    assert(subset_at(tail, d) == subset_at(tail.skip(1), d));
                } else {
                    let d2 = (d - half) as nat;
                    assert((output@[j])@ == prefix.push(set@[i as int]) + subset_at(
                        set@.skip(i + 1),
                        d2,
                    ));
                    assert(subset_at(tail, d) == seq![tail[0]] + subset_at(tail.skip(1), d2));
                    assert(prefix.push(set@[i as int]) + subset_at(set@.skip(i + 1), d2) =~= prefix
                        + (seq![set@[i as int]] + subset_at(set@.skip(i + 1), d2)));
                }
            }
        }
    }
}

/// A fresh copy of a vector of integers.
fn clone_ints(v: &Vec<i32>) -> (r: Vec<i32>)
    ensures
        r@ == v@,
{
    let mut out: Vec<i32> = Vec::new();
    let mut i: usize = 0;
    #[verifier::loop_isolation(false)]
    while i < v.len()
        invariant
            i <= v@.len(),
            out@ == v@.take(i as int),
        decreases v@.len() - i,
    {
        out.push(v[i]);
        proof {
            assert(out@ =~= v@.take(i + 1));
        }
        i = i + 1;
    }
    proof {
        assert(v@.take(v@.len() as int) =~= v@);
    }
    out
}

/// Whether `v` holds `x`.
fn contains_int(v: &Vec<i32>, x: i32) -> (r: bool)
    ensures
        r == v@.contains(x),
{
    let mut i: usize = 0;
    #[verifier::loop_isolation(false)]
    while i < v.len()
        invariant
            i <= v@.len(),
            forall|k: int| 0 <= k < i ==> v@[k] != x,
        decreases v@.len() - i,
    {
        if v[i] == x {
            return true;
        }
        i = i + 1;
    }
    false
}

/// The items of either operand: their union, as the concatenation.
fn union_vecs(a: &Vec<i32>, b: &Vec<i32>) -> (r: Vec<i32>)
    ensures
        r@.to_set() == a@.to_set().union(b@.to_set()),
{
    let mut out = clone_ints(a);
    let mut i: usize = 0;
    #[verifier::loop_isolation(false)]
    while i < b.len()
        invariant
            i <= b@.len(),
            out@.to_set() == a@.to_set().union(b@.take(i as int).to_set()),
        decreases b@.len() - i,
    {
        let ghost before = out@;
        out.push(b[i]);
        proof {
            lemma_to_set_push(before, b@[i as int]);
            assert(b@.take(i + 1) =~= b@.take(i as int).push(b@[i as int]));
            lemma_to_set_push(b@.take(i as int), b@[i as int]);
            assert(out@.to_set() =~= a@.to_set().union(b@.take(i + 1).to_set()));
        }
        i = i + 1;
    }
    proof {
        assert(b@.take(b@.len() as int) =~= b@);
        assert(a@.to_set() =~= a@.to_set().union(b@.take(0).to_set()));
    }
    out
}

/// The items of `a` that `b` also holds: the intersection.
fn intersect_vecs(a: &Vec<i32>, b: &Vec<i32>) -> (r: Vec<i32>)
    ensures
        r@.to_set() == a@.to_set().intersect(b@.to_set()),
{
    let mut out: Vec<i32> = Vec::new();
    let mut i: usize = 0;
    #[verifier::loop_isolation(false)]
    while i < a.len()
        invariant
            i <= a@.len(),
            out@.to_set() == a@.take(i as int).to_set().intersect(b@.to_set()),
        decreases a@.len() - i,
    {
        let x = a[i];
        let ghost before = out@;
        if contains_int(b, x) {
            out.push(x);
        }
        proof {
            assert(a@.take(i + 1) =~= a@.take(i as int).push(x));
            lemma_to_set_push(a@.take(i as int), x);
            if b@.contains(x) {
                lemma_to_set_push(before, x);
            }
            assert(out@.to_set() =~= a@.take(i + 1).to_set().intersect(b@.to_set()));
        }
        i = i + 1;
    }
    proof {
        assert(a@.take(a@.len() as int) =~= a@);
    }
    out
}

/// The items of `a` that `b` does not hold: the difference.
fn diff_vecs(a: &Vec<i32>, b: &Vec<i32>) -> (r: Vec<i32>)
    ensures
        r@.to_set() == a@.to_set().difference(b@.to_set()),
{
    let mut out: Vec<i32> = Vec::new();
    let mut i: usize = 0;
    #[verifier::loop_isolation(false)]
    while i < a.len()
        invariant
            i <= a@.len(),
            out@.to_set() == a@.take(i as int).to_set().difference(b@.to_set()),
        decreases a@.len() - i,
    {
        let x = a[i];
        let ghost before = out@;
        if !contains_int(b, x) {
            out.push(x);
        }
        proof {
            assert(a@.take(i + 1) =~= a@.take(i as int).push(x));
            lemma_to_set_push(a@.take(i as int), x);
            if !b@.contains(x) {
                lemma_to_set_push(before, x);
            }
            assert(out@.to_set() =~= a@.take(i + 1).to_set().difference(b@.to_set()));
        }
        i = i + 1;
    }
    proof {
        assert(a@.take(a@.len() as int) =~= a@);
    }
    out
}

/// The items of the universe that `l` and `r` agree on: set equivalence.
fn equiv_vecs(universe: &Vec<i32>, l: &Vec<i32>, r: &Vec<i32>) -> (res: Vec<i32>)
    ensures
        res@.to_set() == universe@.to_set().filter(
            (|x: i32| l@.to_set().contains(x) == r@.to_set().contains(x)),
        ),
{
    let ghost pred = (|x: i32| l@.to_set().contains(x) == r@.to_set().contains(x));
    let mut out: Vec<i32> = Vec::new();
    let mut i: usize = 0;
    #[verifier::loop_isolation(false)]
    while i < universe.len()
        invariant
            i <= universe@.len(),
            out@.to_set() == universe@.take(i as int).to_set().filter(pred),
        decreases universe@.len() - i,
    {
        let x = universe[i];
        let ghost before = out@;
        let in_l = contains_int(l, x);
        let in_r = contains_int(r, x);
        if in_l == in_r {
            out.push(x);
        }
        proof {
            assert(universe@.take(i + 1) =~= universe@.take(i as int).push(x));
            lemma_to_set_push(universe@.take(i as int), x);
            if pred(x) {
                lemma_to_set_push(before, x);
            }
            assert(out@.to_set() =~= universe@.take(i + 1).to_set().filter(pred));
        }
        i = i + 1;
    }
    proof {
        assert(universe@.take(universe@.len() as int) =~= universe@);
    }
    out
}

/// What one binary set operator builds from the operand pushed earlier
/// (`l`), the operand pushed later (`r`), and the universe.
pub open spec fn set_op(universe: Set<i32>, c: char, l: Set<i32>, r: Set<i32>) -> Set<i32>
    recommends
        crate::boolean_tree::is_binary_token(c),
{
    if c == '|' {
        l.union(r)
    } else if c == '&' {
        l.intersect(r)
    } else if c == '^' {
        l.difference(r).union(r.difference(l))
    } else if c == '>' {
        universe.difference(l).union(r)
    } else {
        universe.filter((|x: i32| l.contains(x) == r.contains(x)))
    }
}

/// One step of the set evaluator: how one token transforms the working
/// stack of set values, or which error it raises. Only union and
/// intersection are available unless `full_ops` is set.
pub open spec fn set_step(
    c: char,
    sets: Seq<Set<i32>>,
    universe: Set<i32>,
    stack: Seq<Set<i32>>,
    full_ops: bool,
) -> Result<Seq<Set<i32>>, ParseError> {
    if is_variable_token(c) {
        let idx = (c as u32 - 65) as int;
        if idx >= sets.len() {
            Err(ParseError::UndefinedSet)
        } else {
            Ok(stack.push(sets[idx]))
        }
    } else if c == '!' {
        if stack.len() == 0 {
            Err(ParseError::MissingOperand)
        } else {
            Ok(stack.drop_last().push(universe.difference(stack.last())))
        }
    } else if c == '|' || c == '&' || (full_ops && (c == '^' || c == '>' || c == '=')) {
        if stack.len() < 2 {
            Err(ParseError::MissingOperands)
        } else {
            Ok(
                stack.drop_last().drop_last().push(
                    set_op(universe, c, stack[stack.len() - 2], stack.last()),
                ),
            )
        }
    } else {
        Err(ParseError::InvalidToken)
    }
}

/// The set evaluator run over a whole token sequence, front first.
pub open spec fn set_run(
    s: Seq<char>,
    sets: Seq<Set<i32>>,
    universe: Set<i32>,
    stack: Seq<Set<i32>>,
    full_ops: bool,
) -> Result<Seq<Set<i32>>, ParseError>
    decreases s.len(),
{
    if s.len() == 0 {
        Ok(stack)
    } else {
        match set_step(s[0], sets, universe, stack, full_ops) {
            Ok(st) => set_run(s.skip(1), sets, universe, st, full_ops),
            Err(e) => Err(e),
        }
    }
}

/// The universe of one evaluation: the union of all the supplied sets.
pub open spec fn universe_of(sets: Seq<Seq<i32>>) -> Set<i32>
    decreases sets.len(),
{
    if sets.len() == 0 {
        Set::empty()
    } else {
        universe_of(sets.drop_last()).union(sets.last().to_set())
    }
}

/// What evaluating a set formula returns: the one set value left on the
/// stack, or the error of the first failing token, or an error about how
/// many operands a full scan left behind.
pub open spec fn eval_set_spec(s: Seq<char>, sets: Seq<Seq<i32>>, full_ops: bool) -> Result<
    Set<i32>,
    ParseError,
> {
    match set_run(
        s,
        sets.map_values((|v: Seq<i32>| v.to_set())),
        universe_of(sets),
        Seq::empty(),
        full_ops,
    ) {
        Ok(st) => if st.len() == 0 {
            Err(ParseError::EmptyFormula)
        } else if st.len() == 1 {
            Ok(st[0])
        } else {
            Err(ParseError::DanglingOperators)
        },
        Err(e) => Err(e),
    }
}

/// Running the set evaluator over a concatenation runs it over both parts
/// in turn; an error in the first part is the error of the whole.
pub proof fn lemma_set_run_append(
    s1: Seq<char>,
    s2: Seq<char>,
    sets: Seq<Set<i32>>,
    universe: Set<i32>,
    stack: Seq<Set<i32>>,
    full_ops: bool,
)
    ensures
        set_run(s1 + s2, sets, universe, stack, full_ops) == (match set_run(
            s1,
            sets,
            universe,
            stack,
            full_ops,
        ) {
            Ok(st) => set_run(s2, sets, universe, st, full_ops),
            Err(e) => Err(e),
        }),
    decreases s1.len(),
{
    if s1.len() == 0 {
        assert(s1 + s2 =~= s2);
    } else {
        assert((s1 + s2)[0] == s1[0]);
        assert((s1 + s2).skip(1) =~= s1.skip(1) + s2);
        match set_step(s1[0], sets, universe, stack, full_ops) {
            Ok(st) => {
                lemma_set_run_append(s1.skip(1), s2, sets, universe, st, full_ops);
            },
            Err(_) => {},
        }
    }
}

/// A run over a single token is that token's step.
pub proof fn lemma_set_run_one(
    c: char,
    sets: Seq<Set<i32>>,
    universe: Set<i32>,
    stack: Seq<Set<i32>>,
    full_ops: bool,
)
    ensures
        set_run(seq![c], sets, universe, stack, full_ops) == set_step(
            c,
            sets,
            universe,
            stack,
            full_ops,
        ),
{
    assert(seq![c].len() == 1);
    assert(seq![c][0] == c);
    assert(seq![c].skip(1) =~= Seq::<char>::empty());
    match set_step(c, sets, universe, stack, full_ops) {
        Ok(st) => {
            assert(set_run(seq![c].skip(1), sets, universe, st, full_ops) == Ok::<_, ParseError>(
                st,
            ));
        },
        Err(_) => {},
    }
}

/// Evaluate a postfix set expression over a stack of set values and sort
/// the one value a balanced expression leaves, ascending and without
/// duplicates.
pub(crate) fn eval_set_core(formula: &str, sets: Vec<Vec<i32>>, full_ops: bool) -> (r: Result<
    Vec<i32>,
    ParseError,
>)
    ensures
        match eval_set_spec(formula@, sets@.map_values((|v: Vec<i32>| v@)), full_ops) {
            Ok(s) => r matches Ok(v) && ints_sorted_strict(v@) && v@.to_set() == s,
            Err(e) => r == Err::<Vec<i32>, ParseError>(e),
        },
{
    let ghost sets_seq = sets@.map_values((|v: Vec<i32>| v@));
    let ghost spec_sets = sets_seq.map_values((|v: Seq<i32>| v.to_set()));
    let ghost uni = universe_of(sets_seq);

    let mut universe: Vec<i32> = Vec::new();
    let mut si: usize = 0;
    #[verifier::loop_isolation(false)]
    while si < sets.len()
        invariant
            si <= sets@.len(),
            universe@.to_set() == universe_of(sets_seq.take(si as int)),
        decreases sets@.len() - si,
    {
        let ghost before = universe@;
        universe = union_vecs(&universe, &sets[si]);
        proof {
            assert(sets_seq.take(si + 1).drop_last() =~= sets_seq.take(si as int));
            assert(sets_seq.take(si + 1).last() == sets@[si as int]@);
            assert(universe@.to_set() =~= universe_of(sets_seq.take(si + 1)));
        }
        si = si + 1;
    }
    proof {
        assert(sets_seq.take(sets_seq.len() as int) =~= sets_seq);
    }

    let n = formula.unicode_len();
    let mut stack: Vec<Vec<i32>> = Vec::new();
    let mut i: usize = 0;
    proof {
        assert(formula@.take(0) =~= Seq::<char>::empty());
        assert(stack@.map_values((|v: Vec<i32>| v@.to_set())) =~= Seq::<Set<i32>>::empty());
    }
    #[verifier::loop_isolation(false)]
    while i < n
        invariant
            i <= n,
            universe@.to_set() == uni,
            set_run(formula@.take(i as int), spec_sets, uni, Seq::empty(), full_ops) == Ok::<
                _,
                ParseError,
            >(stack@.map_values((|v: Vec<i32>| v@.to_set()))),
        decreases n - i,
    {
        let ghost prefix = formula@.take(i as int);
        let ghost ghost_stack = stack@.map_values((|v: Vec<i32>| v@.to_set()));
        let c = formula.get_char(i);
        proof {
            assert(formula@.take(i + 1) =~= prefix + seq![c]);
            lemma_set_run_append(prefix, seq![c], spec_sets, uni, Seq::empty(), full_ops);
            lemma_set_run_one(c, spec_sets, uni, ghost_stack, full_ops);
        }
        let u = c as u32;
        if 65 <= u && u <= 90 {
            let idx = (u - 65) as usize;
            if idx >= sets.len() {
                proof {
                    lemma_set_run_prefix_err(formula@, i as int, spec_sets, uni, full_ops);
                }
                return Err(ParseError::UndefinedSet);
            }
            let copied = clone_ints(&sets[idx]);
            stack.push(copied);
            proof {
                assert(spec_sets[idx as int] == sets@[idx as int]@.to_set());
                assert(stack@.map_values((|v: Vec<i32>| v@.to_set())) =~= ghost_stack.push(
                    spec_sets[idx as int],
                ));
            }
        } else if c == '!' {
            if stack.len() == 0 {
                proof {
                    lemma_set_run_prefix_err(formula@, i as int, spec_sets, uni, full_ops);
                }
                return Err(ParseError::MissingOperand);
            }
            let top = stack.pop().unwrap();
            let complemented = diff_vecs(&universe, &top);
            stack.push(complemented);
            proof {
                assert(stack@.map_values((|v: Vec<i32>| v@.to_set())) =~= ghost_stack.drop_last()
                    .push(uni.difference(ghost_stack.last())));
            }
        } else if c == '|' || c == '&' || (full_ops && (c == '^' || c == '>' || c == '=')) {
            if stack.len() < 2 {
                proof {
                    lemma_set_run_prefix_err(formula@, i as int, spec_sets, uni, full_ops);
                }
                return Err(ParseError::MissingOperands);
            }
            let top = stack.pop().unwrap();
            let nxt = stack.pop().unwrap();
            let combined = if c == '|' {
                union_vecs(&nxt, &top)
            } else if c == '&' {
                intersect_vecs(&nxt, &top)
            } else if c == '^' {
                let left = diff_vecs(&nxt, &top);
                let right = diff_vecs(&top, &nxt);
                union_vecs(&left, &right)
            } else if c == '>' {
                let complement = diff_vecs(&universe, &nxt);
                union_vecs(&complement, &top)
            } else {
                equiv_vecs(&universe, &nxt, &top)
            };
            stack.push(combined);
            proof {
                let l = ghost_stack[ghost_stack.len() - 2];
                let rr = ghost_stack.last();
                assert(combined@.to_set() =~= set_op(uni, c, l, rr));
                assert(stack@.map_values((|v: Vec<i32>| v@.to_set())) =~= ghost_stack.drop_last()
                    .drop_last().push(set_op(uni, c, l, rr)));
            }
        } else {
            proof {
                lemma_set_run_prefix_err(formula@, i as int, spec_sets, uni, full_ops);
            }
            return Err(ParseError::InvalidToken);
        }
        i = i + 1;
    }
    proof {
        assert(formula@.take(n as int) =~= formula@);
    }
    if stack.len() == 0 {
        Err(ParseError::EmptyFormula)
    } else if stack.len() == 1 {
        let ghost ghost_stack = stack@.map_values((|v: Vec<i32>| v@.to_set()));
        let top = stack.pop().unwrap();
        let ghost top_view = top@;
        proof {
            assert(ghost_stack[0] == top_view.to_set());
        }
        let sorted = sorted_ints(top);
        proof {
            crate::sorting::lemma_same_multiset_same_items(sorted@, top_view);
        }
        let deduped = dedup_sorted_ints(sorted);
        Ok(deduped)
    } else {
        Err(ParseError::DanglingOperators)
    }
}

/// An error on a prefix of the scan is the error of the whole scan.
proof fn lemma_set_run_prefix_err(
    s: Seq<char>,
    i: int,
    sets: Seq<Set<i32>>,
    universe: Set<i32>,
    full_ops: bool,
)
    requires
        0 <= i < s.len(),
        set_run(s.take(i + 1), sets, universe, Seq::empty(), full_ops) is Err || set_run(
            s.take(i),
            sets,
            universe,
            Seq::empty(),
            full_ops,
        ) is Err,
    ensures
        set_run(s.take(i + 1), sets, universe, Seq::empty(), full_ops) is Err ==> set_run(
            s,
            sets,
            universe,
            Seq::empty(),
            full_ops,
        ) == set_run(s.take(i + 1), sets, universe, Seq::empty(), full_ops),
        set_run(s.take(i), sets, universe, Seq::empty(), full_ops) is Err ==> set_run(
            s,
            sets,
            universe,
            Seq::empty(),
            full_ops,
        ) == set_run(s.take(i), sets, universe, Seq::empty(), full_ops),
{
    assert(s =~= s.take(i + 1) + s.skip(i + 1));
    lemma_set_run_append(s.take(i + 1), s.skip(i + 1), sets, universe, Seq::empty(), full_ops);
    assert(s =~= s.take(i) + s.skip(i));
    lemma_set_run_append(s.take(i), s.skip(i), sets, universe, Seq::empty(), full_ops);
}

/// Evaluate a postfix set expression over the supplied sets: letters name
/// the sets in order, the complement is relative to the union of all of
/// them, and the result comes back sorted ascending without duplicates.
pub fn eval_set(formula: &str, sets: Vec<Vec<i32>>) -> (r: Result<Vec<i32>, ParseError>)
    ensures
        match eval_set_spec(formula@, sets@.map_values((|v: Vec<i32>| v@)), true) {
            Ok(s) => r matches Ok(v) && ints_sorted_strict(v@) && v@.to_set() == s,
            Err(e) => r == Err::<Vec<i32>, ParseError>(e),
        },
{
    eval_set_core(formula, sets, true)
}

} // verus!
