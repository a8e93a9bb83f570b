use vstd::prelude::*;
use crate::environment::{is_default, lookup, Bindings, Environment};
use crate::expression::{EvalError, Expression, Double, Term};

verus! {

broadcast use vstd::std_specs::vec::group_vec_axioms;

/// The names held by a chain of strings.
pub open spec fn names(chain: Seq<String>) -> Seq<Seq<char>> {
    chain.map_values(|s: String| s@)
}

/// How many bindings of `env` have a name outside `chain`.
pub open spec fn unvisited(env: Bindings, chain: Seq<Seq<char>>) -> nat
    decreases env.len(),
{
    if env.len() == 0 {
        0
    } else {
        unvisited(env.drop_last(), chain) + if chain.contains(env.last().0) {
            0nat
        } else {
            1nat
        }
    }
}

/// Adding a name to the chain never adds an unvisited binding.
pub proof fn lemma_unvisited_push_le(env: Bindings, chain: Seq<Seq<char>>, name: Seq<char>)
    ensures
        unvisited(env, chain.push(name)) <= unvisited(env, chain),
    decreases env.len(),
{
    if env.len() > 0 {
        lemma_unvisited_push_le(env.drop_last(), chain, name);
        if chain.contains(env.last().0) {
            let k = choose|k: int| 0 <= k < chain.len() && chain[k] == env.last().0;
            assert(chain.push(name)[k] == env.last().0);
        }
    }
}

/// Adding a bound name that is not yet in the chain removes at least one
/// unvisited binding.
pub proof fn lemma_unvisited_push_lt(env: Bindings, chain: Seq<Seq<char>>, name: Seq<char>)
    requires
        lookup(env, name) is Some,
        !chain.contains(name),
    ensures
        unvisited(env, chain.push(name)) < unvisited(env, chain),
    decreases env.len(),
{
    assert(chain.push(name)[chain.len() as int] == name);
    if env.last().0 == name {
        lemma_unvisited_push_le(env.drop_last(), chain, name);
    } else {
        lemma_unvisited_push_lt(env.drop_last(), chain, name);
        if chain.contains(env.last().0) {
            let k = choose|k: int| 0 <= k < chain.len() && chain[k] == env.last().0;
            assert(chain.push(name)[k] == env.last().0);
        }
    }
}

/// What evaluating `e` in `env` yields while the names in `chain` are being
/// resolved. With `fallback` set, `e` is evaluated in the default environment
/// instead, and `env` and `chain` play no part.
pub open spec fn eval(
    e: Expression,
    env: Bindings,
    chain: Seq<Seq<char>>,
    fallback: bool,
) -> Result<Term, EvalError>
    decreases
            (if fallback {
                0nat
            } else {
                1nat
            }),
            unvisited(env, chain),
            e,
            1nat,
{
    match e {
        Expression::Number(v) => Ok(Term::Literal(v)),
        Expression::Add(cs) => sum_from(Term::Zero, cs@, 0, env, chain, fallback),
        Expression::Minus(cs) => {
            if cs@.len() == 0 {
                Err(EvalError::EmptyOperandList)
            } else {
                match eval(cs@[0], env, chain, true) {
                    Err(x) => Err(x),
                    Ok(s) => sum_from(Term::TimesMinusTwo(Box::new(s)), cs@, 0, env, chain, fallback),
                }
            }
        },
        Expression::Multiply(_) => Ok(Term::MinusOne),
        Expression::Variable(name) => {
            if fallback {
                if name@ == Seq::<char>::empty() {
                    Ok(Term::Literal(Double::spec_zero()))
                } else {
                    Err(EvalError::UnboundVariable)
                }
            } else {
                match lookup(env, name@) {
                    None => Err(EvalError::UnboundVariable),
                    Some(x) => {
                        if chain.contains(name@) {
                            Err(EvalError::CyclicBinding)
                        } else {
                            proof {
                                lemma_unvisited_push_lt(env, chain, name@);
                            }
                            eval(x, env, chain.push(name@), false)
                        }
                    },
                }
            }
        },
    }
}

/// The left-to-right sum of `acc` and the values of `cs[i..]`, stopping at the
/// first child whose evaluation fails.
pub open spec fn sum_from(
    acc: Term,
    cs: Seq<Expression>,
    i: int,
    env: Bindings,
    chain: Seq<Seq<char>>,
    fallback: bool,
) -> Result<Term, EvalError>
    decreases
            (if fallback {
                0nat
            } else {
                1nat
            }),
            unvisited(env, chain),
            cs,
            cs.len() - i,
    when 0 <= i
{
    if i >= cs.len() {
        Ok(acc)
    } else {
        match eval(cs[i], env, chain, fallback) {
            Err(x) => Err(x),
            Ok(t) => sum_from(Term::Sum(Box::new(acc), Box::new(t)), cs, i + 1, env, chain, fallback),
        }
    }
}

/// What `evaluate(e, env)` yields.
pub open spec fn evaluation(e: Expression, env: Bindings) -> Result<Term, EvalError> {
    eval(e, env, Seq::empty(), false)
}

/// Whether `name` is in `chain`.
fn chain_contains(chain: &Vec<String>, name: &String) -> (r: bool)
    ensures
        r == names(chain@).contains(name@),
{
    let mut i: usize = 0;
    while i < chain.len()
        invariant
            i <= chain.len(),
            forall|j: int| 0 <= j < i ==> chain@[j]@ != name@,
        decreases chain.len() - i,
    {
        if chain[i] == *name {
            assert(names(chain@)[i as int] == name@);
            return true;
        }
        i = i + 1;
    }
    assert forall|j: int| 0 <= j < names(chain@).len() implies names(chain@)[j] != name@ by {
        assert(chain@[j]@ != name@);
    }
    false
}

/// Evaluates `e` in `env` while the names of `chain` are being resolved; with
/// `fallback` set, `env` is the default environment.
fn eval_in(
    e: &Expression,
    env: &Environment,
    chain: &mut Vec<String>,
    fallback: bool,
) -> (r: Result<Term, EvalError>)
    requires
        fallback ==> is_default(env@),
        fallback ==> old(chain)@.len() == 0 || *e is Number,
    ensures
        r == eval(*e, env@, names(old(chain)@), fallback),
        final(chain)@ == old(chain)@,
    decreases
            (if fallback {
                0nat
            } else {
                1nat
            }),
            unvisited(env@, names(chain@)),
            *e,
            1nat,
{
    match e {
        Expression::Number(v) => Ok(Term::Literal(*v)),
        Expression::Add(cs) => sum_children(Term::Zero, cs, env, chain, fallback),
        Expression::Minus(cs) => {
            if cs.len() == 0 {
                return Err(EvalError::EmptyOperandList);
            }
            let first = if fallback {
                eval_in(&cs[0], env, chain, true)
            } else {
                let default_env: Environment = Environment::new();
                let mut fresh: Vec<String> = Vec::new();
                let r = eval_in(&cs[0], &default_env, &mut fresh, true);
                proof {
                    lemma_fallback_ignores_context(cs@[0], default_env@, env@, names(fresh@), names(chain@));
                }
                r
            };
            match first {
                Err(x) => Err(x),
                Ok(s) => sum_children(Term::TimesMinusTwo(Box::new(s)), cs, env, chain, fallback),
            }
        },
        Expression::Multiply(_) => Ok(Term::MinusOne),
        Expression::Variable(name) => {
            proof {
                if fallback {
                    assert(env@.drop_last().len() == 0);
                    assert(lookup(env@.drop_last(), name@) is None);
                }
            }
            let bound = env.value_for_key(name);
            match bound {
                Err(x) => Err(x),
                Ok(x) => {
                    if chain_contains(chain, name) {
                        return Err(EvalError::CyclicBinding);
                    }
                    let ghost before = chain@;
                    chain.push(name.clone());
                    proof {
                        assert(names(chain@) == names(before).push(name@));
                        lemma_unvisited_push_lt(env@, names(before), name@);
                    }
                    let r = eval_in(x, env, chain, fallback);
                    chain.pop();
                    proof {
                        assert(chain@ == before);
                    }
                    r
                },
            }
        },
    }
}

/// Adds the values of `cs`, left to right, to `seed`.
fn sum_children(
    seed: Term,
    cs: &Vec<Expression>,
    env: &Environment,
    chain: &mut Vec<String>,
    fallback: bool,
) -> (r: Result<Term, EvalError>)
    requires
        fallback ==> is_default(env@),
        fallback ==> old(chain)@.len() == 0,
    ensures
        r == sum_from(seed, cs@, 0, env@, names(old(chain)@), fallback),
        final(chain)@ == old(chain)@,
    decreases
            (if fallback {
                0nat
            } else {
                1nat
            }),
            unvisited(env@, names(chain@)),
            *cs,
            0nat,
{
    let ghost start = chain@;
    let mut acc = seed;
    let mut i: usize = 0;
    while i < cs.len()
        invariant
            i <= cs.len(),
            chain@ == start,
            start == old(chain)@,
            fallback ==> is_default(env@),
            fallback ==> start.len() == 0,
            sum_from(acc, cs@, i as int, env@, names(start), fallback) == sum_from(
                seed,
                cs@,
                0,
                env@,
                names(start),
                fallback,
            ),
        decreases cs.len() - i,
    {
        match eval_in(&cs[i], env, chain, fallback) {
            Err(x) => {
                return Err(x);
            },
            Ok(t) => {
                acc = Term::Sum(Box::new(acc), Box::new(t));
            },
        }
        i = i + 1;
    }
    Ok(acc)
}

/// Evaluating in the default environment reads neither the environment nor
/// the chain.
pub proof fn lemma_fallback_ignores_context(
    e: Expression,
    env1: Bindings,
    env2: Bindings,
    chain1: Seq<Seq<char>>,
    chain2: Seq<Seq<char>>,
)
    ensures
        eval(e, env1, chain1, true) == eval(e, env2, chain2, true),
    decreases e, 1nat,
{
    match e {
        Expression::Add(cs) => lemma_fallback_sum_ignores_context(Term::Zero, cs@, 0, env1, env2, chain1, chain2),
        Expression::Minus(cs) => {
            if cs@.len() > 0 {
                lemma_fallback_ignores_context(cs@[0], env1, env2, chain1, chain2);
                match eval(cs@[0], env1, chain1, true) {
                    Ok(s) => lemma_fallback_sum_ignores_context(
                        Term::TimesMinusTwo(Box::new(s)), cs@, 0, env1, env2, chain1, chain2),
                    Err(_) => {},
                }
            }
        },
        _ => {},
    }
}

pub proof fn lemma_fallback_sum_ignores_context(
    acc: Term,
    cs: Seq<Expression>,
    i: int,
    env1: Bindings,
    env2: Bindings,
    chain1: Seq<Seq<char>>,
    chain2: Seq<Seq<char>>,
)
    requires
        0 <= i,
    ensures
        sum_from(acc, cs, i, env1, chain1, true) == sum_from(acc, cs, i, env2, chain2, true),
    decreases cs, cs.len() - i,
{
    if i < cs.len() {
        lemma_fallback_ignores_context(cs[i], env1, env2, chain1, chain2);
        match eval(cs[i], env1, chain1, true) {
            Ok(t) => lemma_fallback_sum_ignores_context(
                Term::Sum(Box::new(acc), Box::new(t)), cs, i + 1, env1, env2, chain1, chain2),
            Err(_) => {},
        }
    }
}

/// Evaluates `expression` in `environment`.
pub fn evaluate(expression: &Expression, environment: &Environment) -> (r: Result<
    Term,
    EvalError,
>)
    ensures
        r == evaluation(*expression, environment@),
{
    let mut chain: Vec<String> = Vec::new();
    assert(names(chain@) == Seq::<Seq<char>>::empty());
    eval_in(expression, environment, &mut chain, false)
}

/// Evaluates a sum in `environment`: the children's values added left to
/// right to zero.
pub fn evaluate_addition(add: &Expression, environment: &Environment) -> (r: Result<
    Term,
    EvalError,
>)
    requires
        *add is Add,
    ensures
        r == evaluation(*add, environment@),
        r == sum_from(Term::Zero, add->Add_0@, 0, environment@, Seq::empty(), false),
{
    evaluate(add, environment)
}

/// Evaluates a subtraction in `environment`: minus two times the first child,
/// evaluated in the default environment, then every child added left to
/// right in `environment`.
pub fn evaluate_minusition(minus: &Expression, environment: &Environment) -> (r:
    Result<Term, EvalError>)
    requires
        *minus is Minus,
    ensures
        r == evaluation(*minus, environment@),
        minus->Minus_0@.len() == 0 ==> r == Err::<Term, EvalError>(EvalError::EmptyOperandList),
        minus->Minus_0@.len() > 0 ==> r == match fallback_value(minus->Minus_0@[0]) {
            Err(x) => Err(x),
            Ok(s) => sum_from(
                Term::TimesMinusTwo(Box::new(s)),
                minus->Minus_0@,
                0,
                environment@,
                Seq::empty(),
                false,
            ),
        },
{
    proof {
        if minus->Minus_0@.len() > 0 {
            lemma_fallback_ignores_context(
                minus->Minus_0@[0],
                environment@,
                Seq::empty(),
                Seq::empty(),
                Seq::empty(),
            );
        }
    }
    evaluate(minus, environment)
}

/// What `e` yields in the default environment.
pub open spec fn fallback_value(e: Expression) -> Result<Term, EvalError> {
    eval(e, Seq::empty(), Seq::empty(), true)
}

} // verus!
