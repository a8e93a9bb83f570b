use vstd::prelude::*;
use crate::environment::{is_default, lookup, Bindings};
use crate::evaluator::{
    eval,
    evaluation,
    fallback_value,
    lemma_fallback_ignores_context,
    lemma_unvisited_push_lt,
    sum_from,
    unvisited,
};
use crate::expression::{EvalError, Expression, Double, Term};

verus! {

/// The left-to-right sum of `acc` and the terms of `ts`.
pub open spec fn sum_terms(acc: Term, ts: Seq<Term>) -> Term
    decreases ts.len(),
{
    if ts.len() == 0 {
        acc
    } else {
        sum_terms(Term::Sum(Box::new(acc), Box::new(ts[0])), ts.drop_first())
    }
}

/// A literal evaluates to itself, whatever the environment.
pub proof fn law_number_ignores_environment(x: Double, env: Bindings)
    ensures
        evaluation(Expression::Number(x), env) == Ok::<Term, EvalError>(Term::Literal(x)),
{
}

/// A sum without children evaluates to zero.
pub proof fn law_empty_sum_is_zero(e: Expression, env: Bindings)
    requires
        e is Add,
        e->Add_0@.len() == 0,
    ensures
        evaluation(e, env) == Ok::<Term, EvalError>(Term::Zero),
{
    assert(sum_from(Term::Zero, e->Add_0@, 0, env, Seq::empty(), false) == Ok::<
        Term,
        EvalError,
    >(Term::Zero));
}

/// Where every child of a sum evaluates, the sum is zero plus the children's
/// values, added left to right.
pub proof fn law_sum_of_children(e: Expression, env: Bindings)
    requires
        e is Add,
        forall|i: int| 0 <= i < e->Add_0@.len() ==> (#[trigger] evaluation(e->Add_0@[i], env)) is Ok,
    ensures
        evaluation(e, env) == Ok::<Term, EvalError>(
            sum_terms(Term::Zero, e->Add_0@.map_values(|c: Expression| evaluation(c, env)->Ok_0)),
        ),
{
    let cs = e->Add_0@;
    let vals = cs.map_values(|c: Expression| evaluation(c, env)->Ok_0);
    lemma_sum_from_all_ok(Term::Zero, cs, 0, env, vals);
    assert(vals.subrange(0, cs.len() as int) == vals);
}

proof fn lemma_sum_from_all_ok(
    acc: Term,
    cs: Seq<Expression>,
    i: int,
    env: Bindings,
    vals: Seq<Term>,
)
    requires
        0 <= i <= cs.len(),
        vals.len() == cs.len(),
        forall|j: int| 0 <= j < cs.len() ==> (#[trigger] evaluation(cs[j], env)) is Ok,
        forall|j: int| 0 <= j < cs.len() ==> vals[j] == (#[trigger] evaluation(cs[j], env))->Ok_0,
    ensures
        sum_from(acc, cs, i, env, Seq::empty(), false) == Ok::<Term, EvalError>(
            sum_terms(acc, vals.subrange(i, cs.len() as int)),
        ),
    decreases cs.len() - i,
{
    if i < cs.len() {
        assert(evaluation(cs[i], env) is Ok);
        assert(vals.subrange(i, cs.len() as int).drop_first() == vals.subrange(i + 1, cs.len() as int));
        lemma_sum_from_all_ok(Term::Sum(Box::new(acc), Box::new(vals[i])), cs, i + 1, env, vals);
    }
}

/// A product evaluates to minus one, whatever its children and environment.
pub proof fn law_product_is_minus_one(e: Expression, env: Bindings)
    requires
        e is Multiply,
    ensures
        evaluation(e, env) == Ok::<Term, EvalError>(Term::MinusOne),
{
}

/// In the default environment the empty name evaluates to the literal zero.
pub proof fn law_default_binds_empty_name_to_zero(e: Expression, env: Bindings)
    requires
        is_default(env),
        e is Variable,
        e->Variable_0@ == Seq::<char>::empty(),
    ensures
        evaluation(e, env) == Ok::<Term, EvalError>(Term::Literal(Double::spec_zero())),
{
    assert(env.drop_last().len() == 0);
    assert(lookup(env, Seq::<char>::empty()) == Some(env[0].1));
    assert(!Seq::<Seq<char>>::empty().contains(Seq::<char>::empty()));
    let chain = Seq::<Seq<char>>::empty().push(Seq::<char>::empty());
    assert(eval(env[0].1, env, chain, false) == Ok::<Term, EvalError>(
        Term::Literal(Double::spec_zero()),
    ));
}

/// In the default environment, evaluating through the environment and
/// evaluating by the default rules agree, while the empty name is not being
/// resolved.
proof fn lemma_default_matches_fallback(e: Expression, d: Bindings, c: Seq<Seq<char>>)
    requires
        is_default(d),
        !c.contains(Seq::<char>::empty()),
    ensures
        eval(e, d, c, false) == eval(e, d, c, true),
    decreases unvisited(d, c), e, 1nat,
{
    match e {
        Expression::Add(cs) => lemma_default_sum_matches_fallback(Term::Zero, cs@, 0, d, c),
        Expression::Minus(cs) => {
            if cs@.len() > 0 {
                match eval(cs@[0], d, c, true) {
                    Ok(s) => lemma_default_sum_matches_fallback(
                        Term::TimesMinusTwo(Box::new(s)),
                        cs@,
                        0,
                        d,
                        c,
                    ),
                    Err(_) => {},
                }
            }
        },
        Expression::Variable(name) => {
            assert(d.drop_last().len() == 0);
            if name@ == Seq::<char>::empty() {
                assert(lookup(d, name@) == Some(d[0].1));
                assert(eval(d[0].1, d, c.push(name@), false) == Ok::<Term, EvalError>(
                    Term::Literal(Double::spec_zero()),
                ));
            } else {
                assert(lookup(d.drop_last(), name@) is None);
            }
        },
        _ => {},
    }
}

proof fn lemma_default_sum_matches_fallback(
    acc: Term,
    cs: Seq<Expression>,
    i: int,
    d: Bindings,
    c: Seq<Seq<char>>,
)
    requires
        is_default(d),
        !c.contains(Seq::<char>::empty()),
        0 <= i,
    ensures
        sum_from(acc, cs, i, d, c, false) == sum_from(acc, cs, i, d, c, true),
    decreases unvisited(d, c), cs, cs.len() - i,
{
    if i < cs.len() {
        lemma_default_matches_fallback(cs[i], d, c);
        match eval(cs[i], d, c, false) {
            Ok(t) => lemma_default_sum_matches_fallback(Term::Sum(Box::new(acc), Box::new(t)), cs, i + 1, d, c),
            Err(_) => {},
        }
    }
}

/// Evaluating in the default environment is what the default rules give.
pub proof fn law_default_environment_evaluation(e: Expression, d: Bindings)
    requires
        is_default(d),
    ensures
        evaluation(e, d) == fallback_value(e),
{
    lemma_default_matches_fallback(e, d, Seq::empty());
    lemma_fallback_ignores_context(e, d, Seq::empty(), Seq::empty(), Seq::empty());
}

/// A subtraction with one child `a` is minus two times `a` evaluated in the
/// default environment `d`, plus `a` evaluated in the caller's environment.
pub proof fn law_minus_of_single_child(e: Expression, env: Bindings, d: Bindings)
    requires
        e is Minus,
        e->Minus_0@.len() == 1,
        is_default(d),
    ensures
        evaluation(e, env) == match evaluation(e->Minus_0@[0], d) {
            Err(x) => Err(x),
            Ok(s) => match evaluation(e->Minus_0@[0], env) {
                Err(y) => Err(y),
                Ok(t) => Ok(Term::Sum(Box::new(Term::TimesMinusTwo(Box::new(s))), Box::new(t))),
            },
        },
{
    let cs = e->Minus_0@;
    let a = cs[0];
    law_default_environment_evaluation(a, d);
    lemma_fallback_ignores_context(a, env, Seq::empty(), Seq::empty(), Seq::empty());
    match evaluation(a, d) {
        Ok(s) => {
            let seed = Term::TimesMinusTwo(Box::new(s));
            assert(eval(a, env, Seq::empty(), true) == Ok::<Term, EvalError>(s));
            assert(evaluation(e, env) == sum_from(seed, cs, 0, env, Seq::empty(), false));
            match evaluation(a, env) {
                Ok(t) => {
                    let next = Term::Sum(Box::new(seed), Box::new(t));
                    assert(sum_from(next, cs, 1, env, Seq::empty(), false) == Ok::<
                        Term,
                        EvalError,
                    >(next));
                    assert(sum_from(seed, cs, 0, env, Seq::empty(), false) == sum_from(
                        next,
                        cs,
                        1,
                        env,
                        Seq::empty(),
                        false,
                    ));
                },
                Err(_) => {
                    assert(sum_from(seed, cs, 0, env, Seq::empty(), false) == evaluation(a, env));
                },
            }
        },
        Err(_) => {
            assert(eval(a, env, Seq::empty(), true) == evaluation(a, d));
        },
    }
}

/// A successful evaluation stays the same when fewer names are being
/// resolved.
proof fn lemma_chain_weaken(
    e: Expression,
    env: Bindings,
    c: Seq<Seq<char>>,
    c2: Seq<Seq<char>>,
    f: bool,
)
    requires
        eval(e, env, c, f) is Ok,
        forall|n: Seq<char>| c2.contains(n) ==> c.contains(n),
    ensures
        eval(e, env, c2, f) == eval(e, env, c, f),
    decreases
            (if f {
                0nat
            } else {
                1nat
            }),
            unvisited(env, c),
            e,
            1nat,
{
    match e {
        Expression::Add(cs) => lemma_sum_chain_weaken(Term::Zero, cs@, 0, env, c, c2, f),
        Expression::Minus(cs) => {
            if cs@.len() > 0 {
                lemma_fallback_ignores_context(cs@[0], env, env, c, c2);
                match eval(cs@[0], env, c, true) {
                    Ok(s) => lemma_sum_chain_weaken(Term::TimesMinusTwo(Box::new(s)), cs@, 0, env, c, c2, f),
                    Err(_) => {},
                }
            }
        },
        Expression::Variable(name) => {
            if !f {
                let k = name@;
                if let Some(x) = lookup(env, k) {
                    assert(!c.contains(k));
                    assert(!c2.contains(k));
                    lemma_unvisited_push_lt(env, c, k);
                    assert forall|n: Seq<char>| c2.push(k).contains(n) implies c.push(k).contains(n) by {
                        let j = choose|j: int| 0 <= j < c2.push(k).len() && c2.push(k)[j] == n;
                        if j == c2.len() {
                            assert(c.push(k)[c.len() as int] == n);
                        } else {
                            assert(c2.contains(n));
                            let i = choose|i: int| 0 <= i < c.len() && c[i] == n;
                            assert(c.push(k)[i] == n);
                        }
                    }
                    lemma_chain_weaken(x, env, c.push(k), c2.push(k), false);
                }
            }
        },
        _ => {},
    }
}

proof fn lemma_sum_chain_weaken(
    acc: Term,
    cs: Seq<Expression>,
    i: int,
    env: Bindings,
    c: Seq<Seq<char>>,
    c2: Seq<Seq<char>>,
    f: bool,
)
    requires
        0 <= i,
        sum_from(acc, cs, i, env, c, f) is Ok,
        forall|n: Seq<char>| c2.contains(n) ==> c.contains(n),
    ensures
        sum_from(acc, cs, i, env, c2, f) == sum_from(acc, cs, i, env, c, f),
    decreases
            (if f {
                0nat
            } else {
                1nat
            }),
            unvisited(env, c),
            cs,
            cs.len() - i,
{
    if i < cs.len() {
        lemma_chain_weaken(cs[i], env, c, c2, f);
        match eval(cs[i], env, c, f) {
            Ok(t) => lemma_sum_chain_weaken(Term::Sum(Box::new(acc), Box::new(t)), cs, i + 1, env, c, c2, f),
            Err(_) => {},
        }
    }
}

/// A name is in a chain after a push exactly when it was before or is the
/// name pushed.
proof fn lemma_contains_push(c: Seq<Seq<char>>, a: Seq<char>, n: Seq<char>)
    ensures
        c.push(a).contains(n) <==> (c.contains(n) || n == a),
{
    if c.contains(n) {
        let i = choose|i: int| 0 <= i < c.len() && c[i] == n;
        assert(c.push(a)[i] == n);
    }
    if n == a {
        assert(c.push(a)[c.len() as int] == n);
    }
    if c.push(a).contains(n) {
        let i = choose|i: int| 0 <= i < c.push(a).len() && c.push(a)[i] == n;
        if i < c.len() {
            assert(c[i] == n);
        }
    }
}

/// Marking `k` as being resolved leaves a successful evaluation unchanged,
/// unless the evaluation reaches `k` itself, in which case the expression
/// bound to `k` evaluates with `k` marked.
proof fn lemma_mark_unreached(
    e: Expression,
    env: Bindings,
    c: Seq<Seq<char>>,
    f: bool,
    k: Seq<char>,
    x: Expression,
)
    requires
        lookup(env, k) == Some(x),
        !c.contains(k),
        eval(e, env, c, f) is Ok,
    ensures
        eval(e, env, c.push(k), f) == eval(e, env, c, f) || eval(x, env, seq![k], false) is Ok,
    decreases
            (if f {
                0nat
            } else {
                1nat
            }),
            unvisited(env, c),
            e,
            1nat,
{
    match e {
        Expression::Add(cs) => lemma_sum_mark_unreached(Term::Zero, cs@, 0, env, c, f, k, x),
        Expression::Minus(cs) => {
            if cs@.len() > 0 {
                lemma_fallback_ignores_context(cs@[0], env, env, c, c.push(k));
                match eval(cs@[0], env, c, true) {
                    Ok(s) => lemma_sum_mark_unreached(
                        Term::TimesMinusTwo(Box::new(s)),
                        cs@,
                        0,
                        env,
                        c,
                        f,
                        k,
                        x,
                    ),
                    Err(_) => {},
                }
            }
        },
        Expression::Variable(name) => {
            if !f {
                let n = name@;
                lemma_contains_push(c, k, n);
                assert(Seq::<Seq<char>>::empty().push(k) == seq![k]);
                if n == k {
                    assert forall|m: Seq<char>| seq![k].contains(m) implies c.push(k).contains(m) by {
                        lemma_contains_push(Seq::<Seq<char>>::empty(), k, m);
                        lemma_contains_push(c, k, m);
                    }
                    lemma_chain_weaken(x, env, c.push(k), seq![k], false);
                } else {
                    let y = lookup(env, n)->0;
                    lemma_unvisited_push_lt(env, c, n);
                    lemma_contains_push(c, n, k);
                    lemma_mark_unreached(y, env, c.push(n), false, k, x);
                    if eval(y, env, c.push(n).push(k), false) == eval(y, env, c.push(n), false) {
                        assert forall|m: Seq<char>|
                            c.push(k).push(n).contains(m) implies c.push(n).push(k).contains(m) by {
                            lemma_contains_push(c.push(k), n, m);
                            lemma_contains_push(c.push(n), k, m);
                            lemma_contains_push(c, k, m);
                            lemma_contains_push(c, n, m);
                        }
                        lemma_chain_weaken(y, env, c.push(n).push(k), c.push(k).push(n), false);
                    }
                }
            }
        },
        _ => {},
    }
}

proof fn lemma_sum_mark_unreached(
    acc: Term,
    cs: Seq<Expression>,
    i: int,
    env: Bindings,
    c: Seq<Seq<char>>,
    f: bool,
    k: Seq<char>,
    x: Expression,
)
    requires
        0 <= i,
        lookup(env, k) == Some(x),
        !c.contains(k),
        sum_from(acc, cs, i, env, c, f) is Ok,
    ensures
        sum_from(acc, cs, i, env, c.push(k), f) == sum_from(acc, cs, i, env, c, f) || eval(
            x,
            env,
            seq![k],
            false,
        ) is Ok,
    decreases
            (if f {
                0nat
            } else {
                1nat
            }),
            unvisited(env, c),
            cs,
            cs.len() - i,
{
    if i < cs.len() {
        lemma_mark_unreached(cs[i], env, c, f, k, x);
        match eval(cs[i], env, c, f) {
            Ok(t) => lemma_sum_mark_unreached(
                Term::Sum(Box::new(acc), Box::new(t)),
                cs,
                i + 1,
                env,
                c,
                f,
                k,
                x,
            ),
            Err(_) => {},
        }
    }
}

/// A variable evaluates as the expression bound to it, evaluated in the same
/// environment; an unbound name fails. Where either of the two evaluations
/// succeeds, they are equal. In every case the variable's evaluation is that
/// of the bound expression while the variable's name is being resolved.
pub proof fn law_variable_resolves(e: Expression, env: Bindings)
    requires
        e is Variable,
    ensures
        lookup(env, e->Variable_0@) is None ==> evaluation(e, env) == Err::<Term, EvalError>(
            EvalError::UnboundVariable,
        ),
        lookup(env, e->Variable_0@) is Some ==> evaluation(e, env) == eval(
            lookup(env, e->Variable_0@)->0,
            env,
            seq![e->Variable_0@],
            false,
        ),
        lookup(env, e->Variable_0@) is Some && (evaluation(e, env) is Ok || evaluation(
            lookup(env, e->Variable_0@)->0,
            env,
        ) is Ok) ==> evaluation(e, env) == evaluation(lookup(env, e->Variable_0@)->0, env),
{
    let k = e->Variable_0@;
    assert(Seq::<Seq<char>>::empty().push(k) == seq![k]);
    if let Some(x) = lookup(env, k) {
        if evaluation(e, env) is Ok {
            lemma_chain_weaken(x, env, seq![k], Seq::empty(), false);
        } else if evaluation(x, env) is Ok {
            lemma_mark_unreached(x, env, Seq::empty(), false, k, x);
            if eval(x, env, seq![k], false) is Ok {
                lemma_chain_weaken(x, env, seq![k], Seq::empty(), false);
            }
        }
    }
}

} // verus!
