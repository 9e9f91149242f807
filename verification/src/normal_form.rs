use vstd::prelude::*;

use crate::boolean_tree::BooleanTree;

verus! {

impl BooleanTree {
    /// The number of nodes in the tree.
    pub open spec fn size(self) -> nat
        decreases self,
    {
        match self {
            BooleanTree::Value(_) => 1,
            BooleanTree::Variable(_) => 1,
            BooleanTree::Not(a) => 1 + a.size(),
            BooleanTree::Or(a, b) => 1 + a.size() + b.size(),
            BooleanTree::And(a, b) => 1 + a.size() + b.size(),
            BooleanTree::Xor(a, b) => 1 + a.size() + b.size(),
            BooleanTree::Implication(a, b) => 1 + a.size() + b.size(),
            BooleanTree::Equivalence(a, b) => 1 + a.size() + b.size(),
        }
    }

    /// Only constants, variables, negation, disjunction and conjunction:
    /// the connectives that survive the elimination phase.
    pub open spec fn is_basic(self) -> bool
        decreases self,
    {
        match self {
            BooleanTree::Value(_) => true,
            BooleanTree::Variable(_) => true,
            BooleanTree::Not(a) => a.is_basic(),
            BooleanTree::Or(a, b) => a.is_basic() && b.is_basic(),
            BooleanTree::And(a, b) => a.is_basic() && b.is_basic(),
            BooleanTree::Xor(_, _) => false,
            BooleanTree::Implication(_, _) => false,
            BooleanTree::Equivalence(_, _) => false,
        }
    }

    /// A constant or a variable: what a negation may stand over in a
    /// normal form.
    pub open spec fn is_leaf(self) -> bool {
        self is Value || self is Variable
    }

    /// Negation normal form: no derived connective anywhere, and every
    /// negation stands directly over a leaf.
    pub open spec fn in_nnf(self) -> bool
        decreases self,
    {
        match self {
            BooleanTree::Value(_) => true,
            BooleanTree::Variable(_) => true,
            BooleanTree::Not(a) => a.is_leaf(),
            BooleanTree::Or(a, b) => a.in_nnf() && b.in_nnf(),
            BooleanTree::And(a, b) => a.in_nnf() && b.in_nnf(),
            BooleanTree::Xor(_, _) => false,
            BooleanTree::Implication(_, _) => false,
            BooleanTree::Equivalence(_, _) => false,
        }
    }

    /// A clause: a disjunction (possibly a single literal) of literals.
    pub open spec fn cnf_clause(self) -> bool
        decreases self,
    {
        match self {
            BooleanTree::Value(_) => true,
            BooleanTree::Variable(_) => true,
            BooleanTree::Not(a) => a.is_leaf(),
            BooleanTree::Or(a, b) => a.cnf_clause() && b.cnf_clause(),
            _ => false,
        }
    }

    /// Conjunctive normal form: a conjunction (possibly a single clause)
    /// of clauses.
    pub open spec fn in_cnf(self) -> bool
        decreases self,
    {
        match self {
            BooleanTree::Value(_) => true,
            BooleanTree::Variable(_) => true,
            BooleanTree::Not(a) => a.is_leaf(),
            BooleanTree::Or(a, b) => a.cnf_clause() && b.cnf_clause(),
            BooleanTree::And(a, b) => a.in_cnf() && b.in_cnf(),
            _ => false,
        }
    }

    /// Eliminate the derived connectives bottom-up: exclusive or,
    /// implication and equivalence are each rewritten over `Or`, `And` and
    /// `Not` of their (already rewritten) operands.
    pub open spec fn elim(self) -> BooleanTree
        decreases self,
    {
        match self {
            BooleanTree::Value(_) => self,
            BooleanTree::Variable(_) => self,
            BooleanTree::Not(a) => BooleanTree::Not(Box::new(a.elim())),
            BooleanTree::Or(a, b) => BooleanTree::Or(Box::new(a.elim()), Box::new(b.elim())),
            BooleanTree::And(a, b) => BooleanTree::And(Box::new(a.elim()), Box::new(b.elim())),
            BooleanTree::Xor(a, b) => BooleanTree::Or(
                Box::new(
                    BooleanTree::And(
                        Box::new(a.elim()),
                        Box::new(BooleanTree::Not(Box::new(b.elim()))),
                    ),
                ),
                Box::new(
                    BooleanTree::And(
                        Box::new(BooleanTree::Not(Box::new(a.elim()))),
                        Box::new(b.elim()),
                    ),
                ),
            ),
            BooleanTree::Implication(a, b) => BooleanTree::Or(
                Box::new(BooleanTree::Not(Box::new(a.elim()))),
                Box::new(b.elim()),
            ),
            BooleanTree::Equivalence(a, b) => BooleanTree::Or(
                Box::new(BooleanTree::And(Box::new(a.elim()), Box::new(b.elim()))),
                Box::new(
                    BooleanTree::And(
                        Box::new(BooleanTree::Not(Box::new(a.elim()))),
                        Box::new(BooleanTree::Not(Box::new(b.elim()))),
                    ),
                ),
            ),
        }
    }

    /// Propagate negation inward over a basic tree until every negation
    /// stands on a leaf, collapsing double negations on the way.
    pub open spec fn push_neg(self) -> BooleanTree
        recommends
            self.is_basic(),
        decreases self,
    {
        match self {
            BooleanTree::Not(a) => a.push_neg_not(),
            BooleanTree::Or(a, b) => BooleanTree::Or(
                Box::new(a.push_neg()),
                Box::new(b.push_neg()),
            ),
            BooleanTree::And(a, b) => BooleanTree::And(
                Box::new(a.push_neg()),
                Box::new(b.push_neg()),
            ),
            _ => self,
        }
    }

    /// The negation normal form of the negation of a basic tree: De Morgan
    /// over the compound connectives, double negation collapsed.
    pub open spec fn push_neg_not(self) -> BooleanTree
        recommends
            self.is_basic(),
        decreases self,
    {
        match self {
            BooleanTree::Not(a) => a.push_neg(),
            BooleanTree::Or(a, b) => BooleanTree::And(
                Box::new(a.push_neg_not()),
                Box::new(b.push_neg_not()),
            ),
            BooleanTree::And(a, b) => BooleanTree::Or(
                Box::new(a.push_neg_not()),
                Box::new(b.push_neg_not()),
            ),
            _ => BooleanTree::Not(Box::new(self)),
        }
    }

    /// The negation normal form of the tree: eliminate derived
    /// connectives, then propagate negation down to the leaves.
    pub open spec fn nnf_of(self) -> BooleanTree {
        self.elim().push_neg()
    }

    /// Distribute a disjunction over the conjunctions of its operands: the
    /// conjunctive normal form of `Or(a, b)` for trees already in that form.
    /// The left operand is split first.
    pub open spec fn dist_or(a: BooleanTree, b: BooleanTree) -> BooleanTree
        recommends
            a.in_cnf(),
            b.in_cnf(),
        decreases a.size() + b.size(),
    {
        if a is And {
            BooleanTree::And(
                Box::new(Self::dist_or(*(a->And_0), b)),
                Box::new(Self::dist_or(*(a->And_1), b)),
            )
        } else if b is And {
            BooleanTree::And(
                Box::new(Self::dist_or(a, *(b->And_0))),
                Box::new(Self::dist_or(a, *(b->And_1))),
            )
        } else {
            BooleanTree::Or(Box::new(a), Box::new(b))
        }
    }

    /// Apply distributivity below every connective of a tree in negation
    /// normal form, producing its conjunctive normal form.
    pub open spec fn dist(self) -> BooleanTree
        recommends
            self.in_nnf(),
        decreases self,
    {
        match self {
            BooleanTree::And(a, b) => BooleanTree::And(Box::new(a.dist()), Box::new(b.dist())),
            BooleanTree::Or(a, b) => Self::dist_or(a.dist(), b.dist()),
            _ => self,
        }
    }

    /// The conjunctive normal form of the tree: its negation normal form
    /// with disjunctions distributed over conjunctions.
    pub open spec fn cnf_of(self) -> BooleanTree {
        self.nnf_of().dist()
    }
}

/// Well-formedness is a condition on the variable set alone.
pub proof fn lemma_wf_vars(t: BooleanTree)
    ensures
        t.wf() <==> (forall|c: char|
            t.vars().contains(c) ==> crate::boolean_tree::is_variable_token(c)),
    decreases t,
{
    match t {
        BooleanTree::Value(_) => {},
        BooleanTree::Variable(c) => {
            assert(t.vars().contains(c));
        },
        BooleanTree::Not(a) => {
            lemma_wf_vars(*a);
        },
        BooleanTree::Or(a, b) => {
            lemma_wf_vars(*a);
            lemma_wf_vars(*b);
        },
        BooleanTree::And(a, b) => {
            lemma_wf_vars(*a);
            lemma_wf_vars(*b);
        },
        BooleanTree::Xor(a, b) => {
            lemma_wf_vars(*a);
            lemma_wf_vars(*b);
        },
        BooleanTree::Implication(a, b) => {
            lemma_wf_vars(*a);
            lemma_wf_vars(*b);
        },
        BooleanTree::Equivalence(a, b) => {
            lemma_wf_vars(*a);
            lemma_wf_vars(*b);
        },
    }
}

/// Eliminating the derived connectives keeps the truth value under every
/// environment.
pub proof fn lemma_elim_eval(t: BooleanTree, env: Map<char, bool>)
    ensures
        t.elim().eval(env) == t.eval(env),
    decreases t,
{
    reveal_with_fuel(BooleanTree::eval, 5);
    match t {
        BooleanTree::Value(_) => {},
        BooleanTree::Variable(_) => {},
        BooleanTree::Not(a) => {
            lemma_elim_eval(*a, env);
        },
        BooleanTree::Or(a, b) => {
            lemma_elim_eval(*a, env);
            lemma_elim_eval(*b, env);
        },
        BooleanTree::And(a, b) => {
            lemma_elim_eval(*a, env);
            lemma_elim_eval(*b, env);
        },
        BooleanTree::Xor(a, b) => {
            lemma_elim_eval(*a, env);
            lemma_elim_eval(*b, env);
        },
        BooleanTree::Implication(a, b) => {
            lemma_elim_eval(*a, env);
            lemma_elim_eval(*b, env);
        },
        BooleanTree::Equivalence(a, b) => {
            lemma_elim_eval(*a, env);
            lemma_elim_eval(*b, env);
        },
    }
}

/// Elimination leaves a basic tree over the same variables.
pub proof fn lemma_elim_props(t: BooleanTree)
    ensures
        t.elim().is_basic(),
        t.elim().vars() == t.vars(),
    decreases t,
{
    reveal_with_fuel(BooleanTree::vars, 5);
    reveal_with_fuel(BooleanTree::is_basic, 5);
    match t {
        BooleanTree::Value(_) => {},
        BooleanTree::Variable(_) => {},
        BooleanTree::Not(a) => {
            lemma_elim_props(*a);
        },
        BooleanTree::Or(a, b) => {
            lemma_elim_props(*a);
            lemma_elim_props(*b);
        },
        BooleanTree::And(a, b) => {
            lemma_elim_props(*a);
            lemma_elim_props(*b);
        },
        BooleanTree::Xor(a, b) => {
            lemma_elim_props(*a);
            lemma_elim_props(*b);
            assert(t.elim().vars() =~= t.vars());
        },
        BooleanTree::Implication(a, b) => {
            lemma_elim_props(*a);
            lemma_elim_props(*b);
            assert(t.elim().vars() =~= t.vars());
        },
        BooleanTree::Equivalence(a, b) => {
            lemma_elim_props(*a);
            lemma_elim_props(*b);
            assert(t.elim().vars() =~= t.vars());
        },
    }
}

/// Propagating negation keeps the truth value: the rewritten tree agrees
/// with the original, and the rewritten negation with its complement.
pub proof fn lemma_push_neg_eval(t: BooleanTree, env: Map<char, bool>)
    requires
        t.is_basic(),
    ensures
        t.push_neg().eval(env) == t.eval(env),
        t.push_neg_not().eval(env) == !t.eval(env),
    decreases t,
{
    match t {
        BooleanTree::Not(a) => {
            lemma_push_neg_eval(*a, env);
        },
        BooleanTree::Or(a, b) => {
            lemma_push_neg_eval(*a, env);
            lemma_push_neg_eval(*b, env);
        },
        BooleanTree::And(a, b) => {
            lemma_push_neg_eval(*a, env);
            lemma_push_neg_eval(*b, env);
        },
        _ => {},
    }
}

/// Propagating negation lands in negation normal form, over the same
/// variables.
pub proof fn lemma_push_neg_props(t: BooleanTree)
    requires
        t.is_basic(),
    ensures
        t.push_neg().in_nnf(),
        t.push_neg_not().in_nnf(),
        t.push_neg().vars() == t.vars(),
        t.push_neg_not().vars() == t.vars(),
    decreases t,
{
    match t {
        BooleanTree::Not(a) => {
            lemma_push_neg_props(*a);
        },
        BooleanTree::Or(a, b) => {
            lemma_push_neg_props(*a);
            lemma_push_neg_props(*b);
        },
        BooleanTree::And(a, b) => {
            lemma_push_neg_props(*a);
            lemma_push_neg_props(*b);
        },
        _ => {
            assert(t.push_neg_not().vars() =~= t.vars());
        },
    }
}

/// A tree already in negation normal form is left exactly as it stands.
pub proof fn lemma_push_neg_fixed(t: BooleanTree)
    requires
        t.in_nnf(),
    ensures
        t.elim() == t,
        t.push_neg() == t,
    decreases t,
{
    match t {
        BooleanTree::Not(a) => {
            assert((*a).push_neg_not() == BooleanTree::Not(Box::new(*a)));
            assert((*a).elim() == *a);
        },
        BooleanTree::Or(a, b) => {
            lemma_push_neg_fixed(*a);
            lemma_push_neg_fixed(*b);
        },
        BooleanTree::And(a, b) => {
            lemma_push_neg_fixed(*a);
            lemma_push_neg_fixed(*b);
        },
        _ => {},
    }
}

/// Law: rewriting to negation normal form preserves the truth table row
/// by row — the rewritten tree takes the same value under every
/// environment.
pub proof fn lemma_nnf_preserves_eval(t: BooleanTree, env: Map<char, bool>)
    ensures
        t.nnf_of().eval(env) == t.eval(env),
{
    lemma_elim_eval(t, env);
    lemma_elim_props(t);
    lemma_push_neg_eval(t.elim(), env);
}

/// Law: the rewrite really lands in negation normal form, and over the
/// same variables.
pub proof fn lemma_nnf_props(t: BooleanTree)
    ensures
        t.nnf_of().in_nnf(),
        t.nnf_of().vars() == t.vars(),
{
    lemma_elim_props(t);
    lemma_push_neg_props(t.elim());
}

/// Law: the rewrite is idempotent — a tree in negation normal form is its
/// own negation normal form, so rewriting twice changes nothing.
pub proof fn lemma_nnf_idempotent(t: BooleanTree)
    ensures
        t.nnf_of().nnf_of() == t.nnf_of(),
{
    lemma_nnf_props(t);
    lemma_push_neg_fixed(t.nnf_of());
}

/// A tree in conjunctive normal form that is no conjunction is a clause.
proof fn lemma_cnf_not_and_clause(t: BooleanTree)
    requires
        t.in_cnf(),
        !(t is And),
    ensures
        t.cnf_clause(),
{
}

/// Distributing a disjunction of two trees in conjunctive normal form
/// lands in conjunctive normal form, keeps the disjunction's truth value
/// under every environment, and touches no other variables.
pub proof fn lemma_dist_or_props(a: BooleanTree, b: BooleanTree, env: Map<char, bool>)
    requires
        a.in_cnf(),
        b.in_cnf(),
    ensures
        BooleanTree::dist_or(a, b).in_cnf(),
        BooleanTree::dist_or(a, b).eval(env) == (a.eval(env) || b.eval(env)),
        BooleanTree::dist_or(a, b).vars() == a.vars().union(b.vars()),
    decreases a.size() + b.size(),
{
    if a is And {
        lemma_dist_or_props(*(a->And_0), b, env);
        lemma_dist_or_props(*(a->And_1), b, env);
        assert(BooleanTree::dist_or(a, b).vars() =~= a.vars().union(b.vars()));
    } else if b is And {
        lemma_dist_or_props(a, *(b->And_0), env);
        lemma_dist_or_props(a, *(b->And_1), env);
        assert(BooleanTree::dist_or(a, b).vars() =~= a.vars().union(b.vars()));
    } else {
        lemma_cnf_not_and_clause(a);
        lemma_cnf_not_and_clause(b);
    }
}

/// Distributing below a tree in negation normal form lands in conjunctive
/// normal form, with the same truth value and the same variables.
pub proof fn lemma_dist_props(t: BooleanTree, env: Map<char, bool>)
    requires
        t.in_nnf(),
    ensures
        t.dist().in_cnf(),
        t.dist().eval(env) == t.eval(env),
        t.dist().vars() == t.vars(),
    decreases t,
{
    match t {
        BooleanTree::And(a, b) => {
            lemma_dist_props(*a, env);
            lemma_dist_props(*b, env);
        },
        BooleanTree::Or(a, b) => {
            lemma_dist_props(*a, env);
            lemma_dist_props(*b, env);
            lemma_dist_or_props(a.dist(), b.dist(), env);
        },
        _ => {},
    }
}

/// Law: rewriting to conjunctive normal form really lands there, keeps
/// the truth table, and keeps the variable set.
pub proof fn lemma_cnf_props(t: BooleanTree, env: Map<char, bool>)
    ensures
        t.cnf_of().in_cnf(),
        t.cnf_of().eval(env) == t.eval(env),
        t.cnf_of().vars() == t.vars(),
{
    lemma_nnf_props(t);
    lemma_nnf_preserves_eval(t, env);
    lemma_dist_props(t.nnf_of(), env);
}

impl BooleanTree {
    /// A fresh tree equal to this one, built leaf by leaf.
    pub fn duplicate(&self) -> (r: BooleanTree)
        ensures
            r == *self,
        decreases self,
    {
        match self {
            BooleanTree::Value(b) => BooleanTree::Value(*b),
            BooleanTree::Variable(c) => BooleanTree::Variable(*c),
            BooleanTree::Not(a) => BooleanTree::Not(Box::new(a.duplicate())),
            BooleanTree::Or(a, b) => BooleanTree::Or(
                Box::new(a.duplicate()),
                Box::new(b.duplicate()),
            ),
            BooleanTree::And(a, b) => BooleanTree::And(
                Box::new(a.duplicate()),
                Box::new(b.duplicate()),
            ),
            BooleanTree::Xor(a, b) => BooleanTree::Xor(
                Box::new(a.duplicate()),
                Box::new(b.duplicate()),
            ),
            BooleanTree::Implication(a, b) => BooleanTree::Implication(
                Box::new(a.duplicate()),
                Box::new(b.duplicate()),
            ),
            BooleanTree::Equivalence(a, b) => BooleanTree::Equivalence(
                Box::new(a.duplicate()),
                Box::new(b.duplicate()),
            ),
        }
    }

    /// Whether the tree is in negation normal form.
    pub fn is_nnf(&self) -> (r: bool)
        ensures
            r == self.in_nnf(),
        decreases self,
    {
        match self {
            BooleanTree::Value(_) => true,
            BooleanTree::Variable(_) => true,
            BooleanTree::Not(a) => match &**a {
                BooleanTree::Value(_) => true,
                BooleanTree::Variable(_) => true,
                _ => false,
            },
            BooleanTree::Or(a, b) => {
                let na = a.is_nnf();
                let nb = b.is_nnf();
                na && nb
            },
            BooleanTree::And(a, b) => {
                let na = a.is_nnf();
                let nb = b.is_nnf();
                na && nb
            },
            _ => false,
        }
    }

    /// Whether the tree is one clause of a conjunctive normal form.
    fn is_cnf_term(&self) -> (r: bool)
        ensures
            r == self.cnf_clause(),
        decreases self,
    {
        match self {
            BooleanTree::Value(_) => true,
            BooleanTree::Variable(_) => true,
            BooleanTree::Not(a) => match &**a {
                BooleanTree::Value(_) => true,
                BooleanTree::Variable(_) => true,
                _ => false,
            },
            BooleanTree::Or(a, b) => {
                let na = a.is_cnf_term();
                let nb = b.is_cnf_term();
                na && nb
            },
            _ => false,
        }
    }

    /// Whether the tree is in conjunctive normal form.
    pub fn is_cnf(&self) -> (r: bool)
        ensures
            r == self.in_cnf(),
        decreases self,
    {
        match self {
            BooleanTree::Value(_) => true,
            BooleanTree::Variable(_) => true,
            BooleanTree::Not(a) => match &**a {
                BooleanTree::Value(_) => true,
                BooleanTree::Variable(_) => true,
                _ => false,
            },
            BooleanTree::Or(a, b) => {
                let na = a.is_cnf_term();
                let nb = b.is_cnf_term();
                na && nb
            },
            BooleanTree::And(a, b) => {
                let na = a.is_cnf();
                let nb = b.is_cnf();
                na && nb
            },
            _ => false,
        }
    }

    /// The elimination phase, built as a fresh tree.
    fn eliminated(&self) -> (r: BooleanTree)
        ensures
            r == self.elim(),
        decreases self,
    {
        match self {
            BooleanTree::Value(b) => BooleanTree::Value(*b),
            BooleanTree::Variable(c) => BooleanTree::Variable(*c),
            BooleanTree::Not(a) => BooleanTree::Not(Box::new(a.eliminated())),
            BooleanTree::Or(a, b) => BooleanTree::Or(
                Box::new(a.eliminated()),
                Box::new(b.eliminated()),
            ),
            BooleanTree::And(a, b) => BooleanTree::And(
                Box::new(a.eliminated()),
                Box::new(b.eliminated()),
            ),
            BooleanTree::Xor(a, b) => {
                let ea = a.eliminated();
                let eb = b.eliminated();
                BooleanTree::Or(
                    Box::new(
                        BooleanTree::And(
                            Box::new(ea.duplicate()),
                            Box::new(BooleanTree::Not(Box::new(eb.duplicate()))),
                        ),
                    ),
                    Box::new(BooleanTree::And(Box::new(BooleanTree::Not(Box::new(ea))), Box::new(eb))),
                )
            },
            BooleanTree::Implication(a, b) => BooleanTree::Or(
                Box::new(BooleanTree::Not(Box::new(a.eliminated()))),
                Box::new(b.eliminated()),
            ),
            BooleanTree::Equivalence(a, b) => {
                let ea = a.eliminated();
                let eb = b.eliminated();
                BooleanTree::Or(
                    Box::new(
                        BooleanTree::And(Box::new(ea.duplicate()), Box::new(eb.duplicate())),
                    ),
                    Box::new(
                        BooleanTree::And(
                            Box::new(BooleanTree::Not(Box::new(ea))),
                            Box::new(BooleanTree::Not(Box::new(eb))),
                        ),
                    ),
                )
            },
        }
    }

    /// The negation-propagation phase, built as a fresh tree.
    fn pushed_neg(&self) -> (r: BooleanTree)
        requires
            self.is_basic(),
        ensures
            r == self.push_neg(),
        decreases self,
    {
        match self {
            BooleanTree::Not(a) => a.pushed_neg_not(),
            BooleanTree::Or(a, b) => BooleanTree::Or(
                Box::new(a.pushed_neg()),
                Box::new(b.pushed_neg()),
            ),
            BooleanTree::And(a, b) => BooleanTree::And(
                Box::new(a.pushed_neg()),
                Box::new(b.pushed_neg()),
            ),
            _ => self.duplicate(),
        }
    }

    /// The negation-propagation phase for a negated subtree.
    fn pushed_neg_not(&self) -> (r: BooleanTree)
        requires
            self.is_basic(),
        ensures
            r == self.push_neg_not(),
        decreases self,
    {
        match self {
            BooleanTree::Not(a) => a.pushed_neg(),
            BooleanTree::Or(a, b) => BooleanTree::And(
                Box::new(a.pushed_neg_not()),
                Box::new(b.pushed_neg_not()),
            ),
            BooleanTree::And(a, b) => BooleanTree::Or(
                Box::new(a.pushed_neg_not()),
                Box::new(b.pushed_neg_not()),
            ),
            _ => BooleanTree::Not(Box::new(self.duplicate())),
        }
    }

    /// Rewrite the tree in place into negation normal form. The result is
    /// in that form, takes the same truth value under every environment,
    /// and reads the same variables, so its truth table is the original's.
    pub fn make_nnf(&mut self)
        ensures
            *final(self) == old(self).nnf_of(),
            final(self).in_nnf(),
            forall|env: Map<char, bool>| #[trigger] final(self).eval(env) == old(self).eval(env),
            final(self).vars() == old(self).vars(),
            old(self).wf() ==> final(self).wf(),
    {
        let ghost t0 = *self;
        proof {
            lemma_elim_props(t0);
            lemma_nnf_props(t0);
            lemma_wf_vars(t0);
            lemma_wf_vars(t0.nnf_of());
            assert forall|env: Map<char, bool>| #[trigger] t0.nnf_of().eval(env) == t0.eval(
                env,
            ) by {
                lemma_nnf_preserves_eval(t0, env);
            }
        }
        let e = self.eliminated();
        let r = e.pushed_neg();
        *self = r;
    }

    /// The distribution phase, built as a fresh tree.
    fn distributed(&self) -> (r: BooleanTree)
        requires
            self.in_nnf(),
        ensures
            r == self.dist(),
        decreases self,
    {
        match self {
            BooleanTree::And(a, b) => BooleanTree::And(
                Box::new(a.distributed()),
                Box::new(b.distributed()),
            ),
            BooleanTree::Or(a, b) => {
                proof {
                    lemma_dist_props(**a, Map::empty());
                    lemma_dist_props(**b, Map::empty());
                }
                Self::or_distributed(a.distributed(), b.distributed())
            },
            _ => self.duplicate(),
        }
    }

    /// Distribute one disjunction of two trees in conjunctive normal form.
    fn or_distributed(a: BooleanTree, b: BooleanTree) -> (r: BooleanTree)
        requires
            a.in_cnf(),
            b.in_cnf(),
        ensures
            r == Self::dist_or(a, b),
        decreases a.size() + b.size(),
    {
        match a {
            BooleanTree::And(p, q) => {
                let right = Self::or_distributed(*q, b.duplicate());
                let left = Self::or_distributed(*p, b);
                BooleanTree::And(Box::new(left), Box::new(right))
            },
            other_a => match b {
                BooleanTree::And(p, q) => {
                    let right = Self::or_distributed(other_a.duplicate(), *q);
                    let left = Self::or_distributed(other_a, *p);
                    BooleanTree::And(Box::new(left), Box::new(right))
                },
                other_b => BooleanTree::Or(Box::new(other_a), Box::new(other_b)),
            },
        }
    }

    /// Rewrite the tree in place into conjunctive normal form. The result
    /// is in that form, takes the same truth value under every
    /// environment, and reads the same variables.
    pub fn make_cnf(&mut self)
        ensures
            *final(self) == old(self).cnf_of(),
            final(self).in_cnf(),
            forall|env: Map<char, bool>| #[trigger] final(self).eval(env) == old(self).eval(env),
            final(self).vars() == old(self).vars(),
            old(self).wf() ==> final(self).wf(),
    {
        let ghost t0 = *self;
        proof {
            lemma_nnf_props(t0);
            lemma_wf_vars(t0);
            lemma_wf_vars(t0.cnf_of());
            assert forall|env: Map<char, bool>| #[trigger] t0.cnf_of().eval(env) == t0.eval(
                env,
            ) by {
                lemma_cnf_props(t0, env);
            }
            lemma_cnf_props(t0, Map::empty());
        }
        self.make_nnf();
        let r = self.distributed();
        *self = r;
    }
}

} // verus!
