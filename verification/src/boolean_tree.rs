use vstd::prelude::*;

verus! {

/// The failures that building or evaluating a postfix expression can surface.
///
/// Every error is reported at the point of detection; no caller downgrades
/// or retries one.
#[derive(Clone, Copy, Debug, PartialEq, Eq, Structural)]
pub enum ParseError {
    /// A full scan produced no result at all (zero tokens).
    EmptyFormula,
    /// A unary operator found an empty stack.
    MissingOperand,
    /// A binary operator found fewer than two operands on the stack.
    MissingOperands,
    /// More than one operand remained after a full scan.
    DanglingOperators,
    /// A character that is no token under the current mode.
    InvalidToken,
    /// Evaluation reached a variable that the environment does not bind.
    UnboundVariable(char),
    /// A set expression referenced a set index beyond the supplied list.
    UndefinedSet,
}

/// An immutable expression tree over boolean constants, variables `A`..`Z`,
/// negation and the five binary connectives of the postfix grammar.
#[derive(Debug)]
pub enum BooleanTree {
    Value(bool),
    Variable(char),
    Not(Box<BooleanTree>),
    Or(Box<BooleanTree>, Box<BooleanTree>),
    And(Box<BooleanTree>, Box<BooleanTree>),
    Xor(Box<BooleanTree>, Box<BooleanTree>),
    Implication(Box<BooleanTree>, Box<BooleanTree>),
    Equivalence(Box<BooleanTree>, Box<BooleanTree>),
}

/// A variable token is one uppercase ascii letter.
pub open spec fn is_variable_token(c: char) -> bool {
    65 <= c as u32 <= 90
}

/// The five binary operator tokens shared by both interpretations.
pub open spec fn is_binary_token(c: char) -> bool {
    c == '|' || c == '&' || c == '^' || c == '>' || c == '='
}

/// The binary node a token builds, with `l` the operand pushed earlier.
pub open spec fn binary_node(c: char, l: BooleanTree, r: BooleanTree) -> BooleanTree
    recommends
        is_binary_token(c),
{
    if c == '|' {
        BooleanTree::Or(Box::new(l), Box::new(r))
    } else if c == '&' {
        BooleanTree::And(Box::new(l), Box::new(r))
    } else if c == '^' {
        BooleanTree::Xor(Box::new(l), Box::new(r))
    } else if c == '>' {
        BooleanTree::Implication(Box::new(l), Box::new(r))
    } else {
        BooleanTree::Equivalence(Box::new(l), Box::new(r))
    }
}

impl BooleanTree {
    /// The free variables occurring in the tree.
    pub open spec fn vars(self) -> Set<char>
        decreases self,
    {
        match self {
            BooleanTree::Value(_) => Set::empty(),
            BooleanTree::Variable(c) => Set::empty().insert(c),
            BooleanTree::Not(a) => a.vars(),
            BooleanTree::Or(a, b) => a.vars().union(b.vars()),
            BooleanTree::And(a, b) => a.vars().union(b.vars()),
            BooleanTree::Xor(a, b) => a.vars().union(b.vars()),
            BooleanTree::Implication(a, b) => a.vars().union(b.vars()),
            BooleanTree::Equivalence(a, b) => a.vars().union(b.vars()),
        }
    }

    /// Every variable the tree holds is a variable token; the builder only
    /// produces such trees, and rendering such a tree re-parses exactly.
    pub open spec fn wf(self) -> bool
        decreases self,
    {
        match self {
            BooleanTree::Value(_) => true,
            BooleanTree::Variable(c) => is_variable_token(c),
            BooleanTree::Not(a) => a.wf(),
            BooleanTree::Or(a, b) => a.wf() && b.wf(),
            BooleanTree::And(a, b) => a.wf() && b.wf(),
            BooleanTree::Xor(a, b) => a.wf() && b.wf(),
            BooleanTree::Implication(a, b) => a.wf() && b.wf(),
            BooleanTree::Equivalence(a, b) => a.wf() && b.wf(),
        }
    }

    /// The truth value of the tree under a total environment.
    pub open spec fn eval(self, env: Map<char, bool>) -> bool
        decreases self,
    {
        match self {
            BooleanTree::Value(b) => b,
            BooleanTree::Variable(c) => env[c],
            BooleanTree::Not(a) => !a.eval(env),
            BooleanTree::Or(a, b) => a.eval(env) || b.eval(env),
            BooleanTree::And(a, b) => a.eval(env) && b.eval(env),
            BooleanTree::Xor(a, b) => a.eval(env) != b.eval(env),
            BooleanTree::Implication(a, b) => !a.eval(env) || b.eval(env),
            BooleanTree::Equivalence(a, b) => a.eval(env) == b.eval(env),
        }
    }

    /// Evaluation against a possibly partial environment. Operands are
    /// evaluated left to right; `Or` stops at a true left operand, `And` at a
    /// false one, and an implication with a false antecedent is true without
    /// looking at its consequent, so a variable only found beyond such a
    /// point raises no error.
    pub open spec fn eval_checked(self, env: Map<char, bool>) -> Result<bool, ParseError>
        decreases self,
    {
        match self {
            BooleanTree::Value(b) => Ok(b),
            BooleanTree::Variable(c) => if env.contains_key(c) {
                Ok(env[c])
            } else {
                Err(ParseError::UnboundVariable(c))
            },
            BooleanTree::Not(a) => match a.eval_checked(env) {
                Ok(v) => Ok(!v),
                Err(e) => Err(e),
            },
            BooleanTree::Or(a, b) => match a.eval_checked(env) {
                Ok(true) => Ok(true),
                Ok(false) => b.eval_checked(env),
                Err(e) => Err(e),
            },
            BooleanTree::And(a, b) => match a.eval_checked(env) {
                Ok(false) => Ok(false),
                Ok(true) => b.eval_checked(env),
                Err(e) => Err(e),
            },
            BooleanTree::Xor(a, b) => match a.eval_checked(env) {
                Ok(va) => match b.eval_checked(env) {
                    Ok(vb) => Ok(va != vb),
                    Err(e) => Err(e),
                },
                Err(e) => Err(e),
            },
            BooleanTree::Implication(a, b) => match a.eval_checked(env) {
                Ok(false) => Ok(true),
                Ok(true) => b.eval_checked(env),
                Err(e) => Err(e),
            },
            BooleanTree::Equivalence(a, b) => match a.eval_checked(env) {
                Ok(va) => match b.eval_checked(env) {
                    Ok(vb) => Ok(va == vb),
                    Err(e) => Err(e),
                },
                Err(e) => Err(e),
            },
        }
    }

    /// The postfix rendering of the tree: each node's operator character
    /// follows its recursively rendered operands.
    pub open spec fn render(self) -> Seq<char>
        decreases self,
    {
        match self {
            BooleanTree::Value(b) => if b {
                seq!['1']
            } else {
                seq!['0']
            },
            BooleanTree::Variable(c) => seq![c],
            BooleanTree::Not(a) => a.render() + seq!['!'],
            BooleanTree::Or(a, b) => a.render() + b.render() + seq!['|'],
            BooleanTree::And(a, b) => a.render() + b.render() + seq!['&'],
            BooleanTree::Xor(a, b) => a.render() + b.render() + seq!['^'],
            BooleanTree::Implication(a, b) => a.render() + b.render() + seq!['>'],
            BooleanTree::Equivalence(a, b) => a.render() + b.render() + seq!['='],
        }
    }
}

/// One step of the postfix builder: how one token transforms the working
/// stack of partially built subtrees, or which error it raises.
pub open spec fn build_step(
    stack: Seq<BooleanTree>,
    c: char,
    variables_allowed: bool,
) -> Result<Seq<BooleanTree>, ParseError> {
    if c == '0' {
        Ok(stack.push(BooleanTree::Value(false)))
    } else if c == '1' {
        Ok(stack.push(BooleanTree::Value(true)))
    } else if variables_allowed && is_variable_token(c) {
        Ok(stack.push(BooleanTree::Variable(c)))
    } else if c == '!' {
        if stack.len() == 0 {
            Err(ParseError::MissingOperand)
        } else {
            Ok(stack.drop_last().push(BooleanTree::Not(Box::new(stack.last()))))
        }
    } else if is_binary_token(c) {
        if stack.len() < 2 {
            Err(ParseError::MissingOperands)
        } else {
            Ok(
                stack.drop_last().drop_last().push(
                    binary_node(c, stack[stack.len() - 2], stack.last()),
                ),
            )
        }
    } else {
        Err(ParseError::InvalidToken)
    }
}

/// The builder run over a whole token sequence, front first.
pub open spec fn build_run(
    s: Seq<char>,
    stack: Seq<BooleanTree>,
    variables_allowed: bool,
) -> Result<Seq<BooleanTree>, ParseError>
    decreases s.len(),
{
    if s.len() == 0 {
        Ok(stack)
    } else {
        match build_step(stack, s[0], variables_allowed) {
            Ok(st) => build_run(s.skip(1), st, variables_allowed),
            Err(e) => Err(e),
        }
    }
}

/// What building a formula returns: the single tree left on the stack, or
/// the error of the first failing token, or an error about how many
/// operands a full scan left behind.
pub open spec fn build_spec(s: Seq<char>, variables_allowed: bool) -> Result<
    BooleanTree,
    ParseError,
> {
    match build_run(s, Seq::empty(), variables_allowed) {
        Ok(st) => if st.len() == 0 {
            Err(ParseError::EmptyFormula)
        } else if st.len() == 1 {
            Ok(st[0])
        } else {
            Err(ParseError::DanglingOperators)
        },
        Err(e) => Err(e),
    }
}

/// Running the builder over a concatenation runs it over both parts in
/// turn; an error in the first part is the error of the whole.
pub proof fn lemma_build_run_append(
    s1: Seq<char>,
    s2: Seq<char>,
    stack: Seq<BooleanTree>,
    variables_allowed: bool,
)
    ensures
        build_run(s1 + s2, stack, variables_allowed) == (match build_run(
            s1,
            stack,
            variables_allowed,
        ) {
            Ok(st) => build_run(s2, st, variables_allowed),
            Err(e) => Err(e),
        }),
    decreases s1.len(),
{
    if s1.len() == 0 {
        assert(s1 + s2 =~= s2);
    } else {
        assert((s1 + s2)[0] == s1[0]);
        assert((s1 + s2).skip(1) =~= s1.skip(1) + s2);
        match build_step(stack, s1[0], variables_allowed) {
            Ok(st) => {
                lemma_build_run_append(s1.skip(1), s2, st, variables_allowed);
            },
            Err(_) => {},
        }
    }
}

/// A run over a single token is that token's step.
pub proof fn lemma_build_run_one(c: char, stack: Seq<BooleanTree>, variables_allowed: bool)
    ensures
        build_run(seq![c], stack, variables_allowed) == build_step(stack, c, variables_allowed),
{
    assert(seq![c].len() == 1);
    assert(seq![c][0] == c);
    assert(seq![c].skip(1) =~= Seq::<char>::empty());
    match build_step(stack, c, variables_allowed) {
        Ok(st) => {
            assert(build_run(seq![c].skip(1), st, variables_allowed) == Ok::<_, ParseError>(st));
        },
        Err(_) => {},
    }
}

/// One builder step only stacks well-formed trees if the stack held only
/// well-formed trees.
pub proof fn lemma_build_step_wf(stack: Seq<BooleanTree>, c: char, variables_allowed: bool)
    requires
        forall|i: int| 0 <= i < stack.len() ==> (#[trigger] stack[i]).wf(),
    ensures
        match build_step(stack, c, variables_allowed) {
            Ok(st) => forall|i: int| 0 <= i < st.len() ==> (#[trigger] st[i]).wf(),
            Err(_) => true,
        },
{
    match build_step(stack, c, variables_allowed) {
        Ok(st) => {
            assert forall|i: int| 0 <= i < st.len() implies (#[trigger] st[i]).wf() by {
                if c == '0' || c == '1' || (variables_allowed && is_variable_token(c)) {
                    if i < st.len() - 1 {
                        assert(st[i] == stack[i]);
                    }
                } else if c == '!' {
                    if i < st.len() - 1 {
                        assert(st[i] == stack[i]);
                    } else {
                        assert(stack.last().wf());
                        assert(st[i] == BooleanTree::Not(Box::new(stack.last())));
                    }
                } else {
                    if i < st.len() - 1 {
                        assert(st[i] == stack[i]);
                    } else {
                        let l = stack[stack.len() - 2];
                        let r = stack.last();
                        assert(l.wf() && r.wf());
                        assert(st[i] == binary_node(c, l, r));
                        assert(binary_node(c, l, r).wf());
                    }
                }
            }
        },
        Err(_) => {},
    }
}

/// With variables disallowed, every tree the builder stacks is closed.
pub proof fn lemma_build_run_no_vars(s: Seq<char>, stack: Seq<BooleanTree>)
    requires
        forall|i: int| 0 <= i < stack.len() ==> (#[trigger] stack[i]).vars() == Set::<char>::empty(),
    ensures
        match build_run(s, stack, false) {
            Ok(st) => forall|i: int|
                0 <= i < st.len() ==> (#[trigger] st[i]).vars() == Set::<char>::empty(),
            Err(_) => true,
        },
    decreases s.len(),
{
    if s.len() > 0 {
        let c = s[0];
        match build_step(stack, c, false) {
            Ok(st) => {
                assert forall|i: int| 0 <= i < st.len() implies (#[trigger] st[i]).vars() == Set::<
                    char,
                >::empty() by {
                    if c == '0' || c == '1' {
                        if i < st.len() - 1 {
                            assert(st[i] == stack[i]);
                        } else {
                            assert(st[i].vars() =~= Set::<char>::empty());
                        }
                    } else if c == '!' {
                        if i < st.len() - 1 {
                            assert(st[i] == stack[i]);
                        } else {
                            assert(st[i] == BooleanTree::Not(Box::new(stack.last())));
                            assert(st[i].vars() =~= Set::<char>::empty());
                        }
                    } else {
                        if i < st.len() - 1 {
                            assert(st[i] == stack[i]);
                        } else {
                            let l = stack[stack.len() - 2];
                            let r = stack.last();
                            assert(st[i] == binary_node(c, l, r));
                            assert(st[i].vars() =~= Set::<char>::empty());
                        }
                    }
                }
                lemma_build_run_no_vars(s.skip(1), st);
            },
            Err(_) => {},
        }
    }
}

/// All trees that the builder stacks are well formed if the stack it
/// started from was.
pub proof fn lemma_build_run_wf(s: Seq<char>, stack: Seq<BooleanTree>, variables_allowed: bool)
    requires
        forall|i: int| 0 <= i < stack.len() ==> (#[trigger] stack[i]).wf(),
    ensures
        match build_run(s, stack, variables_allowed) {
            Ok(st) => forall|i: int| 0 <= i < st.len() ==> (#[trigger] st[i]).wf(),
            Err(_) => true,
        },
    decreases s.len(),
{
    if s.len() > 0 {
        lemma_build_step_wf(stack, s[0], variables_allowed);
        match build_step(stack, s[0], variables_allowed) {
            Ok(st) => {
                lemma_build_run_wf(s.skip(1), st, variables_allowed);
            },
            Err(_) => {},
        }
    }
}

impl BooleanTree {
    /// Scan a postfix formula left to right over a stack of subtrees and
    /// return the one tree a balanced formula leaves, or the first error.
    /// Uppercase letters are variables only when `is_algebraic` is set.
    pub fn new(formula: &str, is_algebraic: bool) -> (r: Result<BooleanTree, ParseError>)
        ensures
            r == build_spec(formula@, is_algebraic),
            r matches Ok(t) ==> t.wf(),
    {
        let n = formula.unicode_len();
        let mut stack: Vec<BooleanTree> = Vec::new();
        let mut i: usize = 0;
        proof {
            assert(formula@.take(0) =~= Seq::<char>::empty());
        }
        while i < n
            invariant
                i <= n,
                n == formula@.len(),
                build_run(formula@.take(i as int), Seq::empty(), is_algebraic) == Ok::<
                    _,
                    ParseError,
                >(stack@),
            decreases n - i,
        {
            let ghost prefix = formula@.take(i as int);
            let c = formula.get_char(i);
            proof {
                assert(formula@.take(i + 1) =~= prefix + seq![c]);
                lemma_build_run_append(prefix, seq![c], Seq::empty(), is_algebraic);
                lemma_build_run_one(c, stack@, is_algebraic);
            }
            let ghost stack_before = stack@;
            let u = c as u32;
            if c == '0' {
                stack.push(BooleanTree::Value(false));
            } else if c == '1' {
                stack.push(BooleanTree::Value(true));
            } else if is_algebraic && 65 <= u && u <= 90 {
                stack.push(BooleanTree::Variable(c));
            } else if c == '!' {
                if stack.len() == 0 {
                    proof {
                        assert(formula@ =~= formula@.take(i + 1) + formula@.skip(i + 1));
                        lemma_build_run_append(
                            formula@.take(i + 1),
                            formula@.skip(i + 1),
                            Seq::empty(),
                            is_algebraic,
                        );
                    }
                    return Err(ParseError::MissingOperand);
                }
                let a = stack.pop().unwrap();
                stack.push(BooleanTree::Not(Box::new(a)));
            } else if c == '|' || c == '&' || c == '^' || c == '>' || c == '=' {
                if stack.len() < 2 {
                    proof {
                        assert(formula@ =~= formula@.take(i + 1) + formula@.skip(i + 1));
                        lemma_build_run_append(
                            formula@.take(i + 1),
                            formula@.skip(i + 1),
                            Seq::empty(),
                            is_algebraic,
                        );
                    }
                    return Err(ParseError::MissingOperands);
                }
                let a = stack.pop().unwrap();
                let b = stack.pop().unwrap();
                let node = if c == '|' {
                    BooleanTree::Or(Box::new(b), Box::new(a))
                } else if c == '&' {
                    BooleanTree::And(Box::new(b), Box::new(a))
                } else if c == '^' {
                    BooleanTree::Xor(Box::new(b), Box::new(a))
                } else if c == '>' {
                    BooleanTree::Implication(Box::new(b), Box::new(a))
                } else {
                    BooleanTree::Equivalence(Box::new(b), Box::new(a))
                };
                stack.push(node);
                proof {
                    assert(stack@ =~= stack_before.drop_last().drop_last().push(
                        binary_node(c, stack_before[stack_before.len() - 2], stack_before.last()),
                    ));
                }
            } else {
                proof {
                    assert(formula@ =~= formula@.take(i + 1) + formula@.skip(i + 1));
                    lemma_build_run_append(
                        formula@.take(i + 1),
                        formula@.skip(i + 1),
                        Seq::empty(),
                        is_algebraic,
                    );
                }
                return Err(ParseError::InvalidToken);
            }
            i = i + 1;
        }
        proof {
            assert(formula@.take(n as int) =~= formula@);
            lemma_build_run_wf(formula@, Seq::empty(), is_algebraic);
        }
        if stack.len() == 0 {
            Err(ParseError::EmptyFormula)
        } else if stack.len() == 1 {
            let t = stack.pop().unwrap();
            Ok(t)
        } else {
            Err(ParseError::DanglingOperators)
        }
    }
}

/// The environment that binds each name to the value at the same position;
/// a later duplicate would win, but callers keep the names distinct.
pub open spec fn env_of(names: Seq<char>, values: Seq<bool>) -> Map<char, bool>
    recommends
        names.len() == values.len(),
    decreases names.len(),
{
    if names.len() == 0 {
        Map::empty()
    } else {
        env_of(names.drop_last(), values.drop_last()).insert(names.last(), values.last())
    }
}

/// The environment binds exactly the names, and with distinct names each one
/// to the value at its position.
pub proof fn lemma_env_of(names: Seq<char>, values: Seq<bool>)
    requires
        names.len() == values.len(),
    ensures
        forall|c: char| #[trigger] env_of(names, values).contains_key(c) <==> names.contains(c),
        names.no_duplicates() ==> forall|i: int|
            0 <= i < names.len() ==> #[trigger] env_of(names, values)[names[i]] == values[i],
    decreases names.len(),
{
    if names.len() > 0 {
        let inner_names = names.drop_last();
        let inner_values = values.drop_last();
        lemma_env_of(inner_names, inner_values);
        assert forall|c: char| #[trigger] env_of(names, values).contains_key(c) implies names.contains(
            c,
        ) by {
            if c == names.last() {
                assert(names[names.len() - 1] == c);
            } else {
                assert(env_of(inner_names, inner_values).contains_key(c));
                assert(inner_names.contains(c));
                let j = choose|j: int| 0 <= j < inner_names.len() && inner_names[j] == c;
                assert(names[j] == c);
            }
        }
        assert forall|c: char| names.contains(c) implies #[trigger] env_of(
            names,
            values,
        ).contains_key(c) by {
            let j = choose|j: int| 0 <= j < names.len() && names[j] == c;
            if j < names.len() - 1 {
                assert(inner_names[j] == c);
                assert(inner_names.contains(c));
                assert(env_of(inner_names, inner_values).contains_key(c));
            } else {
                assert(c == names.last());
            }
        }
        if names.no_duplicates() {
            assert(inner_names.no_duplicates());
            assert forall|i: int| 0 <= i < names.len() implies env_of(names, values)[names[i]]
                == values[i] by {
                if i < names.len() - 1 {
                    assert(names[i] != names.last());
                    assert(inner_names[i] == names[i] && inner_values[i] == values[i]);
                    assert(env_of(inner_names, inner_values)[inner_names[i]] == inner_values[i]);
                }
            }
        }
    }
}

/// Evaluation looks only at the tree's own variables.
pub proof fn lemma_eval_agrees(t: BooleanTree, env1: Map<char, bool>, env2: Map<char, bool>)
    requires
        forall|c: char| t.vars().contains(c) ==> env1[c] == env2[c],
    ensures
        t.eval(env1) == t.eval(env2),
    decreases t,
{
    match t {
        BooleanTree::Value(_) => {},
        BooleanTree::Variable(c) => {
            assert(t.vars().contains(c));
        },
        BooleanTree::Not(a) => {
            lemma_eval_agrees(*a, env1, env2);
        },
        BooleanTree::Or(a, b) => {
            lemma_eval_agrees(*a, env1, env2);
            lemma_eval_agrees(*b, env1, env2);
        },
        BooleanTree::And(a, b) => {
            lemma_eval_agrees(*a, env1, env2);
            lemma_eval_agrees(*b, env1, env2);
        },
        BooleanTree::Xor(a, b) => {
            lemma_eval_agrees(*a, env1, env2);
            lemma_eval_agrees(*b, env1, env2);
        },
        BooleanTree::Implication(a, b) => {
            lemma_eval_agrees(*a, env1, env2);
            lemma_eval_agrees(*b, env1, env2);
        },
        BooleanTree::Equivalence(a, b) => {
            lemma_eval_agrees(*a, env1, env2);
            lemma_eval_agrees(*b, env1, env2);
        },
    }
}

/// Against an environment that binds every variable of the tree, checked
/// evaluation cannot fail and agrees with total evaluation.
pub proof fn lemma_eval_checked_complete(t: BooleanTree, env: Map<char, bool>)
    requires
        forall|c: char| t.vars().contains(c) ==> env.contains_key(c),
    ensures
        t.eval_checked(env) == Ok::<bool, ParseError>(t.eval(env)),
    decreases t,
{
    match t {
        BooleanTree::Value(_) => {},
        BooleanTree::Variable(c) => {
            assert(t.vars().contains(c));
        },
        BooleanTree::Not(a) => {
            lemma_eval_checked_complete(*a, env);
        },
        BooleanTree::Or(a, b) => {
            lemma_eval_checked_complete(*a, env);
            lemma_eval_checked_complete(*b, env);
        },
        BooleanTree::And(a, b) => {
            lemma_eval_checked_complete(*a, env);
            lemma_eval_checked_complete(*b, env);
        },
        BooleanTree::Xor(a, b) => {
            lemma_eval_checked_complete(*a, env);
            lemma_eval_checked_complete(*b, env);
        },
        BooleanTree::Implication(a, b) => {
            lemma_eval_checked_complete(*a, env);
            lemma_eval_checked_complete(*b, env);
        },
        BooleanTree::Equivalence(a, b) => {
            lemma_eval_checked_complete(*a, env);
            lemma_eval_checked_complete(*b, env);
        },
    }
}

/// Relies on std's `String` collected from an iterator over `char`s: the
/// resulting string holds exactly the characters of `v` in order.
#[verifier::external_body]
fn chars_to_string(v: &Vec<char>) -> (s: String)
    ensures
        s@ == v@,
{
    v.iter().collect()
}

impl BooleanTree {
    /// Append the postfix rendering of the tree to `out`.
    fn push_formula(&self, out: &mut Vec<char>)
        ensures
            final(out)@ == old(out)@ + self.render(),
        decreases self,
    {
        match self {
            BooleanTree::Value(b) => {
                out.push(if *b {
                    '1'
                } else {
                    '0'
                });
                proof {
                    assert(out@ =~= old(out)@ + self.render());
                }
            },
            BooleanTree::Variable(c) => {
                out.push(*c);
                proof {
                    assert(out@ =~= old(out)@ + self.render());
                }
            },
            BooleanTree::Not(a) => {
                a.push_formula(out);
                out.push('!');
                proof {
                    assert(out@ =~= old(out)@ + self.render());
                }
            },
            BooleanTree::Or(a, b) => {
                a.push_formula(out);
                b.push_formula(out);
                out.push('|');
                proof {
                    assert(out@ =~= old(out)@ + self.render());
                }
            },
            BooleanTree::And(a, b) => {
                a.push_formula(out);
                b.push_formula(out);
                out.push('&');
                proof {
                    assert(out@ =~= old(out)@ + self.render());
                }
            },
            BooleanTree::Xor(a, b) => {
                a.push_formula(out);
                b.push_formula(out);
                out.push('^');
                proof {
                    assert(out@ =~= old(out)@ + self.render());
                }
            },
            BooleanTree::Implication(a, b) => {
                a.push_formula(out);
                b.push_formula(out);
                out.push('>');
                proof {
                    assert(out@ =~= old(out)@ + self.render());
                }
            },
            BooleanTree::Equivalence(a, b) => {
                a.push_formula(out);
                b.push_formula(out);
                out.push('=');
                proof {
                    assert(out@ =~= old(out)@ + self.render());
                }
            },
        }
    }

    /// The postfix formula the tree stands for, node by node, each operator
    /// character after its recursively rendered operands.
    pub fn to_formula(&self) -> (r: String)
        ensures
            r@ == self.render(),
    {
        let mut out: Vec<char> = Vec::new();
        self.push_formula(&mut out);
        proof {
            assert(out@ =~= self.render());
        }
        chars_to_string(&out)
    }

    /// Look the variable up among `names` and take the value at its
    /// position; the names must be distinct for the position to settle it.
    pub(crate) fn evaluate_with_variables(&self, names: &Vec<char>, values: &Vec<bool>) -> (r: Result<
        bool,
        ParseError,
    >)
        requires
            names@.len() == values@.len(),
            names@.no_duplicates(),
        ensures
            r == self.eval_checked(env_of(names@, values@)),
        decreases self,
    {
        proof {
            lemma_env_of(names@, values@);
        }
        let ghost env = env_of(names@, values@);
        match self {
            BooleanTree::Value(b) => Ok(*b),
            BooleanTree::Variable(c) => {
                let mut j: usize = 0;
                #[verifier::loop_isolation(false)]
                while j < names.len()
                    invariant
                        j <= names@.len(),
                        forall|k: int| 0 <= k < j ==> names@[k] != *c,
                    decreases names@.len() - j,
                {
                    if names[j] == *c {
                        proof {
                            lemma_env_of(names@, values@);
                            assert(names@[j as int] == *c);
                            assert(names@.contains(*c));
                            assert(env_of(names@, values@).contains_key(*c));
                            assert(env_of(names@, values@)[names@[j as int]] == values@[j as int]);
                        }
                        return Ok(values[j]);
                    }
                    j = j + 1;
                }
                proof {
                    lemma_env_of(names@, values@);
                    if env_of(names@, values@).contains_key(*c) {
                        assert(names@.contains(*c));
                        let k = choose|k: int| 0 <= k < names@.len() && names@[k] == *c;
                        assert(false);
                    }
                }
                Err(ParseError::UnboundVariable(*c))
            },
            BooleanTree::Not(a) => match a.evaluate_with_variables(names, values) {
                Ok(v) => Ok(!v),
                Err(e) => Err(e),
            },
            BooleanTree::Or(a, b) => match a.evaluate_with_variables(names, values) {
                Ok(true) => Ok(true),
                Ok(false) => b.evaluate_with_variables(names, values),
                Err(e) => Err(e),
            },
            BooleanTree::And(a, b) => match a.evaluate_with_variables(names, values) {
                Ok(false) => Ok(false),
                Ok(true) => b.evaluate_with_variables(names, values),
                Err(e) => Err(e),
            },
            BooleanTree::Xor(a, b) => match a.evaluate_with_variables(names, values) {
                Ok(va) => match b.evaluate_with_variables(names, values) {
                    Ok(vb) => Ok(va != vb),
                    Err(e) => Err(e),
                },
                Err(e) => Err(e),
            },
            BooleanTree::Implication(a, b) => match a.evaluate_with_variables(names, values) {
                Ok(false) => Ok(true),
                Ok(true) => b.evaluate_with_variables(names, values),
                Err(e) => Err(e),
            },
            BooleanTree::Equivalence(a, b) => match a.evaluate_with_variables(names, values) {
                Ok(va) => match b.evaluate_with_variables(names, values) {
                    Ok(vb) => Ok(va == vb),
                    Err(e) => Err(e),
                },
                Err(e) => Err(e),
            },
        }
    }

    /// Evaluate a closed tree. A variable raises `UnboundVariable` unless a
    /// short circuit settles the result before it is reached.
    pub fn evaluate(&self) -> (r: Result<bool, ParseError>)
        ensures
            r == self.eval_checked(Map::<char, bool>::empty()),
    {
        let names: Vec<char> = Vec::new();
        let values: Vec<bool> = Vec::new();
        self.evaluate_with_variables(&names, &values)
    }
}

/// A rendered well-formed tree, scanned by the builder, lands on the stack
/// as the very tree it was rendered from.
pub proof fn lemma_render_parses(t: BooleanTree, stack: Seq<BooleanTree>)
    requires
        t.wf(),
    ensures
        build_run(t.render(), stack, true) == Ok::<_, ParseError>(stack.push(t)),
    decreases t,
{
    match t {
        BooleanTree::Value(b) => {
            lemma_build_run_one(if b {
                '1'
            } else {
                '0'
            }, stack, true);
        },
        BooleanTree::Variable(c) => {
            lemma_build_run_one(c, stack, true);
        },
        BooleanTree::Not(a) => {
            lemma_render_parses(*a, stack);
            lemma_build_run_append(a.render(), seq!['!'], stack, true);
            lemma_build_run_one('!', stack.push(*a), true);
            assert(stack.push(*a).drop_last() =~= stack);
            assert(stack.push(*a).last() == *a);
        },
        BooleanTree::Or(a, b) => {
            lemma_render_parses(*a, stack);
            lemma_render_parses(*b, stack.push(*a));
            lemma_render_parses_binary(t, *a, *b, '|', stack);
        },
        BooleanTree::And(a, b) => {
            lemma_render_parses(*a, stack);
            lemma_render_parses(*b, stack.push(*a));
            lemma_render_parses_binary(t, *a, *b, '&', stack);
        },
        BooleanTree::Xor(a, b) => {
            lemma_render_parses(*a, stack);
            lemma_render_parses(*b, stack.push(*a));
            lemma_render_parses_binary(t, *a, *b, '^', stack);
        },
        BooleanTree::Implication(a, b) => {
            lemma_render_parses(*a, stack);
            lemma_render_parses(*b, stack.push(*a));
            lemma_render_parses_binary(t, *a, *b, '>', stack);
        },
        BooleanTree::Equivalence(a, b) => {
            lemma_render_parses(*a, stack);
            lemma_render_parses(*b, stack.push(*a));
            lemma_render_parses_binary(t, *a, *b, '=', stack);
        },
    }
}

/// The binary case of `lemma_render_parses`: with both operands already on
/// the stack, the operator token folds them back into the original node.
proof fn lemma_render_parses_binary(
    t: BooleanTree,
    a: BooleanTree,
    b: BooleanTree,
    c: char,
    stack: Seq<BooleanTree>,
)
    requires
        is_binary_token(c),
        t.render() == a.render() + b.render() + seq![c],
        t == binary_node(c, a, b),
        build_run(a.render(), stack, true) == Ok::<_, ParseError>(stack.push(a)),
        build_run(b.render(), stack.push(a), true) == Ok::<_, ParseError>(stack.push(a).push(b)),
    ensures
        build_run(t.render(), stack, true) == Ok::<_, ParseError>(stack.push(t)),
{
    lemma_build_run_append(a.render(), b.render() + seq![c], stack, true);
    lemma_build_run_append(b.render(), seq![c], stack.push(a), true);
    assert(t.render() =~= a.render() + (b.render() + seq![c]));
    lemma_build_run_one(c, stack.push(a).push(b), true);
    let st = stack.push(a).push(b);
    assert(st.drop_last().drop_last() =~= stack);
    assert(st[st.len() - 2] == a && st.last() == b);
}

/// Law: re-parsing a rendered well-formed tree rebuilds that very tree, so
/// the rebuilt tree's truth table is the original's.
pub proof fn lemma_build_render_roundtrip(t: BooleanTree)
    requires
        t.wf(),
    ensures
        build_spec(t.render(), true) == Ok::<BooleanTree, ParseError>(t),
{
    lemma_render_parses(t, Seq::empty());
    assert(Seq::<BooleanTree>::empty().push(t).len() == 1);
    assert(Seq::<BooleanTree>::empty().push(t)[0] == t);
}

} // verus!
