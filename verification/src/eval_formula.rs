use vstd::prelude::*;

use crate::boolean_tree::BooleanTree;
use crate::boolean_tree::build_spec;
use crate::boolean_tree::lemma_build_run_no_vars;
use crate::boolean_tree::lemma_eval_checked_complete;

verus! {

/// Evaluate a variable-free postfix formula: the formula must build (with
/// variables disallowed), and the result is the built tree's truth value.
pub fn eval_formula(formula: &str) -> (r: bool)
    requires
        build_spec(formula@, false) is Ok,
    ensures
        r == (build_spec(formula@, false)->Ok_0).eval(Map::<char, bool>::empty()),
{
    match BooleanTree::new(formula, false) {
        Ok(t) => {
            proof {
                lemma_build_run_no_vars(formula@, Seq::empty());
                assert(t.vars() == Set::<char>::empty());
                lemma_eval_checked_complete(t, Map::<char, bool>::empty());
            }
            match t.evaluate() {
                Ok(v) => v,
                Err(_) => false,
            }
        },
        Err(_) => false,
    }
}

} // verus!
