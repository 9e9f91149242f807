use vstd::prelude::*;

use vstd::arithmetic::power2::pow2;

use crate::boolean_tree::BooleanTree;
use crate::boolean_tree::ParseError;
use crate::boolean_tree::build_spec;
use crate::boolean_tree::env_of;
use crate::boolean_tree::lemma_env_of;
use crate::boolean_tree::lemma_eval_agrees;
use crate::boolean_tree::lemma_eval_checked_complete;
use crate::sorting::chars_sorted_strict;
use crate::sorting::dedup_sorted_chars;
use crate::sorting::lemma_same_multiset_same_items;
use crate::sorting::lemma_to_set_push;
use crate::sorting::sorted_chars;

verus! {

/// The input bits of truth-table row `j` over `k` variables, first variable
/// first: the binary digits of `j`, most significant digit first, so the
/// rows stand in increasing binary order of their inputs.
pub open spec fn row_bits(j: nat, k: nat) -> Seq<bool>
    recommends
        j < pow2(k),
    decreases k,
{
    if k == 0 {
        Seq::empty()
    } else if j < pow2((k - 1) as nat) {
        seq![false] + row_bits(j, (k - 1) as nat)
    } else {
        seq![true] + row_bits((j - pow2((k - 1) as nat)) as nat, (k - 1) as nat)
    }
}

/// A row over `k` variables holds `k` bits.
pub proof fn lemma_row_bits_len(j: nat, k: nat)
    ensures
        row_bits(j, k).len() == k,
    decreases k,
{
    if k > 0 {
        if j < pow2((k - 1) as nat) {
            lemma_row_bits_len(j, (k - 1) as nat);
        } else {
            lemma_row_bits_len((j - pow2((k - 1) as nat)) as nat, (k - 1) as nat);
        }
    }
}

/// The rows of a truth table over the given variable order: `2^k` rows,
/// row `j` carrying the binary digits of `j` as inputs and the tree's value
/// under the matching environment as output.
pub open spec fn table_rows_correct(
    t: BooleanTree,
    variables: Seq<char>,
    inputs: Seq<Vec<bool>>,
    outputs: Seq<bool>,
) -> bool {
    &&& inputs.len() == pow2(variables.len() as nat)
    &&& outputs.len() == pow2(variables.len() as nat)
    &&& forall|j: int|
        0 <= j < inputs.len() ==> (#[trigger] inputs[j])@ == row_bits(
            j as nat,
            variables.len() as nat,
        )
    &&& forall|j: int|
        0 <= j < outputs.len() ==> #[trigger] outputs[j] == t.eval(
            env_of(variables, row_bits(j as nat, variables.len() as nat)),
        )
}

/// A full truth table of a tree: its variables, distinct and sorted
/// ascending, and all `2^k` rows in increasing binary order.
pub open spec fn truth_table_correct(
    t: BooleanTree,
    variables: Seq<char>,
    inputs: Seq<Vec<bool>>,
    outputs: Seq<bool>,
) -> bool {
    &&& chars_sorted_strict(variables)
    &&& variables.no_duplicates()
    &&& variables.to_set() == t.vars()
    &&& table_rows_correct(t, variables, inputs, outputs)
}

/// A fresh copy of a vector of bits.
fn clone_bools(v: &Vec<bool>) -> (r: Vec<bool>)
    ensures
        r@ == v@,
{
    let mut out: Vec<bool> = Vec::new();
    let mut i: usize = 0;
    #[verifier::loop_isolation(false)]
    while i < v.len()
        invariant
            i <= v@.len(),
            out@ == v@.take(i as int),
        decreases v@.len() - i,
    {
        out.push(v[i]);
        proof {
            assert(out@ =~= v@.take(i + 1));
        }
        i = i + 1;
    }
    proof {
        assert(v@.take(v@.len() as int) =~= v@);
    }
    out
}

impl BooleanTree {
    /// Append every variable occurrence of the tree to `out`.
    fn collect_variables(&self, out: &mut Vec<char>)
        ensures
            final(out)@.to_set() == old(out)@.to_set().union(self.vars()),
        decreases self,
    {
        match self {
            BooleanTree::Value(_) => {
                proof {
                    assert(out@.to_set() =~= old(out)@.to_set().union(self.vars()));
                }
            },
            BooleanTree::Variable(c) => {
                out.push(*c);
                proof {
                    lemma_to_set_push(old(out)@, *c);
                    assert(out@.to_set() =~= old(out)@.to_set().union(self.vars()));
                }
            },
            BooleanTree::Not(a) => {
                a.collect_variables(out);
            },
            BooleanTree::Or(a, b) => {
                a.collect_variables(out);
                b.collect_variables(out);
                proof {
                    assert(out@.to_set() =~= old(out)@.to_set().union(self.vars()));
                }
            },
            BooleanTree::And(a, b) => {
                a.collect_variables(out);
                b.collect_variables(out);
                proof {
                    assert(out@.to_set() =~= old(out)@.to_set().union(self.vars()));
                }
            },
            BooleanTree::Xor(a, b) => {
                a.collect_variables(out);
                b.collect_variables(out);
                proof {
                    assert(out@.to_set() =~= old(out)@.to_set().union(self.vars()));
                }
            },
            BooleanTree::Implication(a, b) => {
                a.collect_variables(out);
                b.collect_variables(out);
                proof {
                    assert(out@.to_set() =~= old(out)@.to_set().union(self.vars()));
                }
            },
            BooleanTree::Equivalence(a, b) => {
                a.collect_variables(out);
                b.collect_variables(out);
                proof {
                    assert(out@.to_set() =~= old(out)@.to_set().union(self.vars()));
                }
            },
        }
    }

    /// Fix the remaining variables depth first, each first to false and
    /// then to true, appending one row per full assignment: the rows land
    /// in increasing binary order of the chosen bits.
    fn fill_truth_table(
        &self,
        variables: &Vec<char>,
        values: &mut Vec<bool>,
        inputs: &mut Vec<Vec<bool>>,
        outputs: &mut Vec<bool>,
    )
        requires
            variables@.no_duplicates(),
            old(values)@.len() <= variables@.len(),
            self.vars().subset_of(variables@.to_set()),
        ensures
            final(values)@ == old(values)@,
            final(inputs)@.len() == old(inputs)@.len() + pow2(
                (variables@.len() - old(values)@.len()) as nat,
            ),
            final(outputs)@.len() == old(outputs)@.len() + pow2(
                (variables@.len() - old(values)@.len()) as nat,
            ),
            forall|j: int|
                0 <= j < old(inputs)@.len() ==> #[trigger] final(inputs)@[j] == old(inputs)@[j],
            forall|j: int|
                0 <= j < old(outputs)@.len() ==> #[trigger] final(outputs)@[j] == old(outputs)@[j],
            forall|j: int|
                old(inputs)@.len() <= j < final(inputs)@.len() ==> (
                #[trigger] final(inputs)@[j])@ == old(values)@ + row_bits(
                    (j - old(inputs)@.len()) as nat,
                    (variables@.len() - old(values)@.len()) as nat,
                ),
            forall|j: int|
                old(outputs)@.len() <= j < final(outputs)@.len() ==> #[trigger] final(outputs)@[j]
                    == self.eval(
                    env_of(
                        variables@,
                        old(values)@ + row_bits(
                            (j - old(outputs)@.len()) as nat,
                            (variables@.len() - old(values)@.len()) as nat,
                        ),
                    ),
                ),
        decreases variables@.len() - old(values)@.len(),
    {
        let ghost prefix = values@;
        let ghost k = variables@.len();
        let ghost rem = (k - prefix.len()) as nat;
        if values.len() == variables.len() {
            proof {
                lemma_env_of(variables@, values@);
                assert forall|c: char| self.vars().contains(c) implies env_of(
                    variables@,
                    values@,
                ).contains_key(c) by {
                    assert(variables@.to_set().contains(c));
                }
                lemma_eval_checked_complete(*self, env_of(variables@, values@));
            }
            let row = clone_bools(values);
            let value = match self.evaluate_with_variables(variables, values) {
                Ok(v) => v,
                Err(_) => false,
            };
            inputs.push(row);
            outputs.push(value);
            proof {
                assert(pow2(0) == 1) by {
                    vstd::arithmetic::power2::lemma2_to64();
                }
                assert(prefix + row_bits(0, 0) =~= prefix);
            }
        } else {
            proof {
                vstd::arithmetic::power2::lemma_pow2_unfold(rem);
            }
            let ghost half = pow2((rem - 1) as nat);
            let ghost base_in = inputs@.len() as int;
            let ghost base_out = outputs@.len() as int;
            values.push(false);
            self.fill_truth_table(variables, values, inputs, outputs);
            let ghost mid_out = outputs@;
            let _ = values.pop();
            proof {
                assert(values@ =~= prefix);
            }
            values.push(true);
            self.fill_truth_table(variables, values, inputs, outputs);
            let _ = values.pop();
            proof {
                assert(values@ =~= prefix);
                assert(prefix.push(false) =~= prefix + seq![false]);
                assert(prefix.push(true) =~= prefix + seq![true]);
                assert forall|j: int|
                    base_in <= j < inputs@.len() implies (#[trigger] inputs@[j])@ == prefix
                    + row_bits((j - base_in) as nat, rem) by {
                    let d = (j - base_in) as nat;
                    if d < half {
                        assert((inputs@[j])@ == (prefix + seq![false]) + row_bits(
                            d,
                            (rem - 1) as nat,
                        ));
                        assert(row_bits(d, rem) == seq![false] + row_bits(d, (rem - 1) as nat));
                        assert((prefix + seq![false]) + row_bits(d, (rem - 1) as nat) =~= prefix
                            + (seq![false] + row_bits(d, (rem - 1) as nat)));
                    } else {
                        let d2 = (d - half) as nat;
                        assert((inputs@[j])@ == (prefix + seq![true]) + row_bits(
                            d2,
                            (rem - 1) as nat,
                        ));
                        assert(row_bits(d, rem) == seq![true] + row_bits(d2, (rem - 1) as nat));
                        assert((prefix + seq![true]) + row_bits(d2, (rem - 1) as nat) =~= prefix
                            + (seq![true] + row_bits(d2, (rem - 1) as nat)));
                    }
                }
                assert forall|j: int|
                    base_out <= j < outputs@.len() implies #[trigger] outputs@[j] == self.eval(
                    env_of(variables@, prefix + row_bits((j - base_out) as nat, rem)),
                ) by {
                    let d = (j - base_out) as nat;
                    if d < half {
                        lemma_row_bits_len(d, (rem - 1) as nat);
                        assert(outputs@[j] == mid_out[j]);
                        assert(mid_out[j] == self.eval(
                            env_of(
                                variables@,
                                (prefix + seq![false]) + row_bits(d, (rem - 1) as nat),
                            ),
                        ));
                        assert(row_bits(d, rem) == seq![false] + row_bits(d, (rem - 1) as nat));
                        assert((prefix + seq![false]) + row_bits(d, (rem - 1) as nat) =~= prefix
                            + (seq![false] + row_bits(d, (rem - 1) as nat)));
                    } else {
                        let d2 = (d - half) as nat;
                        lemma_row_bits_len(d2, (rem - 1) as nat);
                        assert(outputs@[j] == self.eval(
                            env_of(
                                variables@,
                                (prefix + seq![true]) + row_bits(d2, (rem - 1) as nat),
                            ),
                        ));
                        assert(row_bits(d, rem) == seq![true] + row_bits(d2, (rem - 1) as nat));
                        assert((prefix + seq![true]) + row_bits(d2, (rem - 1) as nat) =~= prefix
                            + (seq![true] + row_bits(d2, (rem - 1) as nat)));
                    }
                }
            }
        }
    }

    /// The full truth table of the tree: its variables, collected and
    /// sorted ascending, and one row per assignment, in increasing binary
    /// order, first row all false, last row all true.
    pub fn compute_truth_table(&self) -> (r: (Vec<char>, Vec<Vec<bool>>, Vec<bool>))
        ensures
            truth_table_correct(*self, r.0@, r.1@, r.2@),
    {
        let mut occurrences: Vec<char> = Vec::new();
        self.collect_variables(&mut occurrences);
        let ghost occ = occurrences@;
        let sorted = sorted_chars(occurrences);
        proof {
            lemma_same_multiset_same_items(sorted@, occ);
            assert(occ.to_set() =~= self.vars());
        }
        let variables = dedup_sorted_chars(sorted);
        let mut values: Vec<bool> = Vec::new();
        let mut inputs: Vec<Vec<bool>> = Vec::new();
        let mut outputs: Vec<bool> = Vec::new();
        proof {
            assert(variables@.to_set() =~= self.vars());
        }
        self.fill_truth_table(&variables, &mut values, &mut inputs, &mut outputs);
        proof {
            assert forall|j: int| 0 <= j < inputs@.len() implies (#[trigger] inputs@[j])@
                == row_bits(j as nat, variables@.len() as nat) by {
                assert((inputs@[j])@ == Seq::<bool>::empty() + row_bits(
                    j as nat,
                    variables@.len() as nat,
                ));
                assert(Seq::<bool>::empty() + row_bits(j as nat, variables@.len() as nat)
                    =~= row_bits(j as nat, variables@.len() as nat));
            }
            assert forall|j: int| 0 <= j < outputs@.len() implies #[trigger] outputs@[j]
                == self.eval(
                env_of(variables@, row_bits(j as nat, variables@.len() as nat)),
            ) by {
                assert(Seq::<bool>::empty() + row_bits(j as nat, variables@.len() as nat)
                    =~= row_bits(j as nat, variables@.len() as nat));
            }
        }
        (variables, inputs, outputs)
    }
}

/// Build the formula and compute its truth table; a formula the builder
/// refuses is refused here with the builder's own error.
pub fn compute_truth_table(formula: &str) -> (r: Result<
    (Vec<char>, Vec<Vec<bool>>, Vec<bool>),
    ParseError,
>)
    ensures
        build_spec(formula@, true) matches Err(e) ==> r == Err::<
            (Vec<char>, Vec<Vec<bool>>, Vec<bool>),
            ParseError,
        >(e),
        build_spec(formula@, true) matches Ok(t) ==> r matches Ok(tab) && truth_table_correct(
            t,
            tab.0@,
            tab.1@,
            tab.2@,
        ),
{
    match BooleanTree::new(formula, true) {
        Ok(t) => Ok(t.compute_truth_table()),
        Err(e) => Err(e),
    }
}

/// Law: a truth table is settled by the tree's variable set and its truth
/// function. Two trees over the same variables that agree under every
/// environment — as a tree and its normal forms do — have one truth table:
/// same variable order, same input rows, same output column.
pub proof fn lemma_truth_table_unique(
    t1: BooleanTree,
    t2: BooleanTree,
    vars1: Seq<char>,
    inputs1: Seq<Vec<bool>>,
    outputs1: Seq<bool>,
    vars2: Seq<char>,
    inputs2: Seq<Vec<bool>>,
    outputs2: Seq<bool>,
)
    requires
        truth_table_correct(t1, vars1, inputs1, outputs1),
        truth_table_correct(t2, vars2, inputs2, outputs2),
        t1.vars() == t2.vars(),
        forall|env: Map<char, bool>| #[trigger] t1.eval(env) == t2.eval(env),
    ensures
        vars1 == vars2,
        outputs1 == outputs2,
        inputs1.len() == inputs2.len(),
        forall|j: int| 0 <= j < inputs1.len() ==> (#[trigger] inputs1[j])@ == inputs2[j]@,
{
    crate::sorting::lemma_chars_sorted_strict_unique(vars1, vars2);
    assert forall|j: int| 0 <= j < outputs1.len() implies outputs1[j] == outputs2[j] by {
        assert(outputs1[j] == t1.eval(env_of(vars1, row_bits(j as nat, vars1.len() as nat))));
        assert(outputs2[j] == t2.eval(env_of(vars1, row_bits(j as nat, vars1.len() as nat))));
    }
    assert(outputs1 =~= outputs2);
}

/// Law: a tree and its negation normal form have identical truth tables —
/// same variable order, same input rows, same output column.
pub proof fn lemma_nnf_truth_table(
    t: BooleanTree,
    vars1: Seq<char>,
    inputs1: Seq<Vec<bool>>,
    outputs1: Seq<bool>,
    vars2: Seq<char>,
    inputs2: Seq<Vec<bool>>,
    outputs2: Seq<bool>,
)
    requires
        truth_table_correct(t, vars1, inputs1, outputs1),
        truth_table_correct(t.nnf_of(), vars2, inputs2, outputs2),
    ensures
        vars1 == vars2,
        outputs1 == outputs2,
        inputs1.len() == inputs2.len(),
        forall|j: int| 0 <= j < inputs1.len() ==> (#[trigger] inputs1[j])@ == inputs2[j]@,
{
    crate::normal_form::lemma_nnf_props(t);
    assert forall|env: Map<char, bool>| #[trigger] t.eval(env) == t.nnf_of().eval(env) by {
        crate::normal_form::lemma_nnf_preserves_eval(t, env);
    }
    lemma_truth_table_unique(t, t.nnf_of(), vars1, inputs1, outputs1, vars2, inputs2, outputs2);
}

/// Law: a tree and its conjunctive normal form have identical truth tables —
/// same variable order, same input rows, same output column.
pub proof fn lemma_cnf_truth_table(
    t: BooleanTree,
    vars1: Seq<char>,
    inputs1: Seq<Vec<bool>>,
    outputs1: Seq<bool>,
    vars2: Seq<char>,
    inputs2: Seq<Vec<bool>>,
    outputs2: Seq<bool>,
)
    requires
        truth_table_correct(t, vars1, inputs1, outputs1),
        truth_table_correct(t.cnf_of(), vars2, inputs2, outputs2),
    ensures
        vars1 == vars2,
        outputs1 == outputs2,
        inputs1.len() == inputs2.len(),
        forall|j: int| 0 <= j < inputs1.len() ==> (#[trigger] inputs1[j])@ == inputs2[j]@,
{
    crate::normal_form::lemma_cnf_props(t, Map::empty());
    assert forall|env: Map<char, bool>| #[trigger] t.eval(env) == t.cnf_of().eval(env) by {
        crate::normal_form::lemma_cnf_props(t, env);
    }
    lemma_truth_table_unique(t, t.cnf_of(), vars1, inputs1, outputs1, vars2, inputs2, outputs2);
}

impl BooleanTree {
    /// Some environment makes the tree true.
    pub open spec fn satisfiable(self) -> bool {
        exists|env: Map<char, bool>| self.eval(env)
    }
}

/// The truth-table row whose bits agree with `env` on the given variables.
pub open spec fn index_of_env(variables: Seq<char>, env: Map<char, bool>) -> nat
    decreases variables.len(),
{
    if variables.len() == 0 {
        0
    } else {
        (if env[variables[0]] {
            pow2((variables.len() - 1) as nat)
        } else {
            0
        }) + index_of_env(variables.skip(1), env)
    }
}

/// The chosen row index is in range and its bits agree with the
/// environment, variable by variable.
pub proof fn lemma_index_of_env(variables: Seq<char>, env: Map<char, bool>)
    ensures
        index_of_env(variables, env) < pow2(variables.len() as nat),
        forall|i: int|
            0 <= i < variables.len() ==> row_bits(
                index_of_env(variables, env),
                variables.len() as nat,
            )[i] == env[variables[i]],
    decreases variables.len(),
{
    let k = variables.len() as nat;
    if variables.len() == 0 {
        assert(pow2(0) == 1) by {
            vstd::arithmetic::power2::lemma2_to64();
        }
    } else {
        let rest = variables.skip(1);
        lemma_index_of_env(rest, env);
        let tail_index = index_of_env(rest, env);
        let half = pow2((k - 1) as nat);
        vstd::arithmetic::power2::lemma_pow2_unfold(k);
        let j = index_of_env(variables, env);
        lemma_row_bits_len(tail_index, (k - 1) as nat);
        if env[variables[0]] {
            assert(j == half + tail_index);
            assert(row_bits(j, k) == seq![true] + row_bits(tail_index, (k - 1) as nat));
            assert forall|i: int| 0 <= i < variables.len() implies row_bits(j, k)[i]
                == env[variables[i]] by {
                if i > 0 {
                    assert(row_bits(j, k)[i] == row_bits(tail_index, (k - 1) as nat)[i - 1]);
                    assert(rest[i - 1] == variables[i]);
                }
            }
        } else {
            assert(j == tail_index);
            assert(row_bits(j, k) == seq![false] + row_bits(tail_index, (k - 1) as nat));
            assert forall|i: int| 0 <= i < variables.len() implies row_bits(j, k)[i]
                == env[variables[i]] by {
                if i > 0 {
                    assert(row_bits(j, k)[i] == row_bits(tail_index, (k - 1) as nat)[i - 1]);
                    assert(rest[i - 1] == variables[i]);
                }
            }
        }
    }
}

/// Law: a tree is satisfiable exactly when some row of a truth table over
/// any variable order covering its variables evaluates to true.
pub proof fn lemma_satisfiable_iff_row(t: BooleanTree, variables: Seq<char>)
    requires
        variables.no_duplicates(),
        t.vars().subset_of(variables.to_set()),
    ensures
        t.satisfiable() <==> exists|j: nat|
            j < pow2(variables.len() as nat) && #[trigger] t.eval(
                env_of(variables, row_bits(j, variables.len() as nat)),
            ),
{
    let k = variables.len() as nat;
    if t.satisfiable() {
        let env = choose|env: Map<char, bool>| t.eval(env);
        let j = index_of_env(variables, env);
        lemma_index_of_env(variables, env);
        let bits = row_bits(j, k);
        lemma_row_bits_len(j, k);
        lemma_env_of(variables, bits);
        assert forall|c: char| t.vars().contains(c) implies env_of(variables, bits)[c]
            == env[c] by {
            assert(variables.to_set().contains(c));
            assert(variables.contains(c));
            let i = choose|i: int| 0 <= i < variables.len() && variables[i] == c;
            assert(env_of(variables, bits)[variables[i]] == bits[i]);
            assert(bits[i] == env[variables[i]]);
        }
        lemma_eval_agrees(t, env, env_of(variables, bits));
        assert(j < pow2(k) && t.eval(env_of(variables, bits)));
    }
    if exists|j: nat|
        j < pow2(k) && #[trigger] t.eval(env_of(variables, row_bits(j, k))) {
        let j = choose|j: nat| j < pow2(k) && #[trigger] t.eval(env_of(variables, row_bits(j, k)));
        assert(t.eval(env_of(variables, row_bits(j, k))));
    }
}

impl BooleanTree {
    /// Whether any assignment makes the tree true, decided by scanning the
    /// outputs of its full truth table.
    pub fn is_satisfiable(&self) -> (r: bool)
        ensures
            r == self.satisfiable(),
    {
        let (variables, _inputs, outputs) = self.compute_truth_table();
        proof {
            lemma_satisfiable_iff_row(*self, variables@);
        }
        let mut i: usize = 0;
        #[verifier::loop_isolation(false)]
        while i < outputs.len()
            invariant
                i <= outputs@.len(),
                forall|j: int| 0 <= j < i ==> !outputs@[j],
            decreases outputs@.len() - i,
        {
            if outputs[i] {
                proof {
                    let k = variables@.len() as nat;
                    assert((i as nat) < pow2(k) && self.eval(
                        env_of(variables@, row_bits(i as nat, k)),
                    ));
                }
                return true;
            }
            i = i + 1;
        }
        proof {
            let k = variables@.len() as nat;
            if self.satisfiable() {
                let j = choose|j: nat|
                    j < pow2(k) && #[trigger] self.eval(env_of(variables@, row_bits(j, k)));
                assert(outputs@[j as int] == self.eval(env_of(variables@, row_bits(j, k))));
                assert(false);
            }
        }
        false
    }
}

} // verus!
